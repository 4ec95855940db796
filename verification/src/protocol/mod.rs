//! Wire protocol shared by relay, agent, and bridge.
//!
//! Framing is JSON-RPC 2.0 (see `rpc`). The `params` payload of every message
//! is one of the types below. The relay reads only what it needs to route; the
//! method bodies pass through untouched.

use vstd::prelude::*;

pub mod code;
pub mod encode;
pub mod method;
pub mod notify;

verus! {

/// Unique id of a connected agent, chosen by the agent at startup.
pub type AgentId = String;

/// Unique id of a connected bridge, chosen by the bridge at startup.
pub type BridgeId = String;

/// Opaque id of a request, echoed back in the response.
pub type RequestId = u64;

/// First message sent by a peer after the WebSocket opens.
#[derive(Debug, Clone)]
pub struct Hello {
    pub kind: PeerKind,
    pub id: String,
    /// Human-readable name for logs (e.g. "dev-laptop", "prod-server").
    pub name: String,
    /// Agent only: the pairing token that authorizes it to serve this bridge.
    pub token: Option<String>,
}

#[derive(Debug, Clone, Copy, PartialEq, Eq, Structural)]
pub enum PeerKind {
    Bridge,
    Agent,
}

/// Reply to `Hello`. `session` is present for both peers; `agent_id` only for
/// the bridge (the agent already knows its own id).
#[derive(Debug, Clone)]
pub struct HelloAck {
    pub session: SessionId,
    pub agent_id: Option<AgentId>,
}

pub type SessionId = String;

/// A request from bridge to agent.
#[derive(Debug, Clone)]
pub struct Request {
    pub id: RequestId,
    pub method: String,
    pub params: serde_json::Value,
}

/// A response from agent to bridge.
#[derive(Debug, Clone)]
pub struct Response {
    pub id: RequestId,
    pub result: Option<serde_json::Value>,
    pub error: Option<RpcError>,
}

#[derive(Debug, Clone)]
pub struct RpcError {
    pub code: i64,
    pub message: String,
    pub data: Option<serde_json::Value>,
}

impl RpcError {
    pub fn new(code: i64, message: &str) -> (res: Self)
        ensures
            res.code == code,
            res.message@ == message@,
            res.data is None,
    {
        Self { code, message: message.to_owned(), data: None }
    }

    pub fn with_data(code: i64, message: &str, data: serde_json::Value) -> (res: Self)
        ensures
            res.code == code,
            res.message@ == message@,
            res.data == Some(data),
    {
        Self { code, message: message.to_owned(), data: Some(data) }
    }
}

/// One-way event from agent to bridge (or bridge to agent).
#[derive(Debug, Clone)]
pub struct Notification {
    pub method: String,
    pub params: serde_json::Value,
}

// ---------------------------------------------------------------------------
// Request params
// ---------------------------------------------------------------------------

#[derive(Debug)]
pub struct RunCommandParams {
    /// Command line, e.g. `cargo build --release`. Executed via the user's shell.
    pub command: String,
    /// Working directory for the command.
    pub cwd: Option<String>,
    /// Environment overrides, e.g. `{"FOO": "bar"}`.
    pub env: Option<serde_json::Map<String, serde_json::Value>>,
    /// Kill the command after this many seconds (0 = no limit).
    pub timeout_secs: Option<u64>,
    /// Text written to the command's stdin before it starts reading.
    /// Commands that need interactive input (prompts, `read`) consume this.
    pub input: Option<String>,
    /// Wait for the command to finish (default true). When false, the answer
    /// carries an `execution_id` and the command keeps running.
    pub wait: Option<bool>,
}

#[derive(Debug, Clone)]
pub struct GetCommandResultParams {
    /// Execution id returned by `run_command` with `wait: false`.
    pub execution_id: u64,
    /// Return only the first N lines of output.
    pub head: Option<usize>,
    /// Return only the last N lines of output.
    pub tail: Option<usize>,
}

#[derive(Debug, Clone)]
pub struct ReadFileParams {
    pub path: String,
    /// Byte offset to start reading from.
    pub offset: Option<u64>,
    /// Maximum number of bytes to read.
    pub limit: Option<u64>,
}

#[derive(Debug, Clone)]
pub struct WriteFileParams {
    pub path: String,
    /// Base64-encoded contents.
    pub data: String,
    /// Create parent directories if missing.
    pub create_dirs: Option<bool>,
}

#[derive(Debug, Clone)]
pub struct ListDirParams {
    pub path: String,
}

#[derive(Debug, Clone)]
pub struct StatParams {
    pub path: String,
}

#[derive(Debug, Clone)]
pub struct MkdirParams {
    pub path: String,
    /// Unix permission bits, e.g. 0o755.
    pub mode: Option<u32>,
}

#[derive(Debug, Clone)]
pub struct RemoveParams {
    pub path: String,
    /// Remove non-empty directories recursively.
    pub recursive: Option<bool>,
}

#[derive(Debug, Clone)]
pub struct RenameParams {
    pub from: String,
    pub to: String,
}

#[derive(Debug, Clone)]
pub struct CopyParams {
    pub from: String,
    pub to: String,
    /// Copy directories recursively.
    pub recursive: Option<bool>,
}

#[derive(Debug, Clone)]
pub struct WriteAtParams {
    pub path: String,
    /// Byte offset to write at.
    pub offset: u64,
    /// Base64-encoded bytes.
    pub data: String,
}

#[derive(Debug, Clone)]
pub struct TruncateParams {
    pub path: String,
    pub size: u64,
}

#[derive(Debug, Clone)]
pub struct SymlinkParams {
    /// Path of the link to create.
    pub link: String,
    /// Target the link points to.
    pub target: String,
}

#[derive(Debug, Clone)]
pub struct ChmodParams {
    pub path: String,
    pub mode: u32,
}

#[derive(Debug, Clone)]
pub struct MountParams {
    /// Absolute path on the agent of the directory to expose.
    pub remote_dir: String,
    /// Absolute path on the agent where the FUSE filesystem is mounted.
    pub mount_point: String,
    /// Mount read-only.
    pub read_only: Option<bool>,
}

#[derive(Debug, Clone)]
pub struct UnmountParams {
    pub mount_point: String,
}

// ---------------------------------------------------------------------------
// Results
// ---------------------------------------------------------------------------

#[derive(Debug, Clone)]
pub struct RunCommandResult {
    /// Exit status: `Some(code)` if the process exited, `None` if it was
    /// killed by a signal or timed out.
    pub exit_code: Option<i32>,
    /// True if the command was killed by the timeout.
    pub timed_out: bool,
    /// Combined stdout+stderr captured so far (streaming continues via
    /// `command_output` notifications).
    pub output: String,
    /// Set when the command keeps running: the id to fetch its result by.
    pub execution_id: Option<u64>,
}

/// The state of a command started with `wait: false`.
#[derive(Debug, Clone)]
pub struct GetCommandResult {
    /// True once the command has exited.
    pub done: bool,
    pub exit_code: Option<i32>,
    pub timed_out: Option<bool>,
    pub output: String,
}

#[derive(Debug, Clone)]
pub struct ReadFileResult {
    /// Base64-encoded bytes.
    pub data: String,
    /// True if fewer bytes were returned than requested (end of file).
    pub eof: bool,
}

#[derive(Debug, Clone)]
pub struct WriteFileResult {
    pub bytes_written: u64,
}

#[derive(Debug, Clone)]
pub struct ListDirResult {
    pub entries: Vec<DirEntry>,
}

#[derive(Debug, Clone)]
pub struct DirEntry {
    pub name: String,
    pub kind: FileKind,
    pub size: u64,
    pub modified: u64,
}

#[derive(Debug, Clone, Copy, PartialEq, Eq, Structural)]
pub enum FileKind {
    File,
    Dir,
    Symlink,
    Other,
}

#[derive(Debug, Clone)]
pub struct StatResult {
    pub kind: FileKind,
    pub size: u64,
    pub modified: u64,
    pub mode: u32,
    pub uid: u32,
    pub gid: u32,
    /// Symlink target, when `kind == Symlink`.
    pub link_target: Option<String>,
}

#[derive(Debug, Clone)]
pub struct MountResult {
    pub mount_point: String,
    pub remote_dir: String,
    pub read_only: bool,
}

#[derive(Debug, Clone)]
pub struct ListMountsResult {
    pub mounts: Vec<MountResult>,
}

#[derive(Debug, Clone)]
pub struct PingResult {
    pub ok: bool,
    pub hostname: String,
    pub pid: u32,
}

/// One connected target (agent), as reported by the relay.
#[derive(Debug, Clone)]
pub struct TargetInfo {
    /// Agent id chosen at startup.
    pub id: String,
    /// Human-readable name shown in relay logs.
    pub name: String,
    /// Relay-assigned session id.
    pub session: String,
}

#[derive(Debug, Clone)]
pub struct ListTargetsResult {
    pub targets: Vec<TargetInfo>,
}

// ---------------------------------------------------------------------------
// Notifications
// ---------------------------------------------------------------------------

#[derive(Debug, Clone)]
pub struct CommandOutputNotification {
    pub id: RequestId,
    /// stdout or stderr.
    pub stream: String,
    pub data: String,
}

#[derive(Debug, Clone)]
pub struct CommandFinishedNotification {
    pub id: RequestId,
    pub exit_code: Option<i32>,
    pub timed_out: bool,
}

#[derive(Debug, Clone)]
pub struct MountGoneNotification {
    pub mount_point: String,
    pub reason: String,
}

} // verus!
