//! Methods understood by the agent.

use vstd::prelude::*;

verus! {

/// Run a command; params: `run_command` request.
pub const RUN_COMMAND: &'static str = "run_command";

/// Read a file; params: `read_file` request.
pub const READ_FILE: &'static str = "read_file";

/// Write a file; params: `write_file` request.
pub const WRITE_FILE: &'static str = "write_file";

/// List a directory; params: `list_dir` request.
pub const LIST_DIR: &'static str = "list_dir";

/// Stat a path; params: `stat` request.
pub const STAT: &'static str = "stat";

/// Create a directory; params: `mkdir` request.
pub const MKDIR: &'static str = "mkdir";

/// Remove a file or directory; params: `remove` request.
pub const REMOVE: &'static str = "remove";

/// Rename a file or directory; params: `rename` request.
pub const RENAME: &'static str = "rename";

/// Copy a file or directory; params: `copy` request.
pub const COPY: &'static str = "copy";

/// Write bytes at an offset (no truncate); params: `write_at` request.
pub const WRITE_AT: &'static str = "write_at";

/// Truncate a file to a size; params: `truncate` request.
pub const TRUNCATE: &'static str = "truncate";

/// Create a symlink; params: `symlink` request.
pub const SYMLINK: &'static str = "symlink";

/// Change file permissions; params: `chmod` request.
pub const CHMOD: &'static str = "chmod";

/// Stream a file's contents; params: `read_file` request.
pub const STREAM_FILE: &'static str = "stream_file";

/// Begin a FUSE mount; params: `mount` request.
pub const MOUNT: &'static str = "mount";

/// Tear down a FUSE mount; params: `unmount` request.
pub const UNMOUNT: &'static str = "unmount";

/// List active mounts.
pub const LIST_MOUNTS: &'static str = "list_mounts";

/// Agent health check.
pub const PING: &'static str = "ping";

/// List all targets connected to the relay. Answered by the relay
/// itself (it is the only component that sees every agent), not
/// forwarded to the paired agent.
pub const LIST_TARGETS: &'static str = "list_targets";

/// Fetch the result of a command started with `wait: false`; params:
/// `get_command_result` request.
pub const GET_COMMAND_RESULT: &'static str = "get_command_result";

} // verus!
