//! The MCP tools: what each sends to the target, and how its answer reads.

use vstd::prelude::*;

use crate::encoding::{base64_encode, base64_text};
use crate::json::{
    json_text, json_view, new_object, null, of_opt_bool, of_opt_text, of_opt_u64, of_text,
    of_u64, opt_bool, opt_text_view, opt_unsigned, put, render, unsigned, JsonView,
};
use crate::protocol::encode::{no_members, read_result_value, read_result_view, with_text};
use crate::protocol::{
    FileKind, GetCommandResult, ListDirResult, ListTargetsResult, ReadFileResult, RunCommandResult,
    WriteFileResult,
};
use crate::text::{
    decimal, decimal_text, join, joined, push_decimal, right_align, right_aligned, signed_decimal,
    signed_decimal_text, texts,
};

verus! {

// ---------------------------------------------------------------------------
// Arguments
// ---------------------------------------------------------------------------

/// MCP tool arguments.
#[derive(Debug)]
pub struct RunCommandArgs {
    /// Command line to execute on the remote machine, e.g. `cargo build`.
    pub command: String,
    /// Working directory on the remote machine.
    pub cwd: Option<String>,
    /// Kill the command after this many seconds (0 = no limit).
    pub timeout_secs: Option<u64>,
    /// Maximum time to wait for the command to finish. Defaults to 300s
    /// (5 minutes); 0 = no limit. `timeout_secs` kills the command; this
    /// only bounds how long the bridge waits for the response.
    pub request_timeout_secs: Option<u64>,
    /// Wait for the command to finish and return its output (default true).
    /// When false, the call returns an `execution_id` immediately and the
    /// command keeps running; fetch the result with `get_command_result`.
    pub wait: Option<bool>,
    /// Text written to the command's stdin before it starts reading.
    /// Use for commands that prompt for input (e.g. `read`, interactive
    /// installers). The command sees this as its stdin, then EOF.
    pub input: Option<String>,
}

#[derive(Debug)]
pub struct PathArgs {
    /// Absolute path on the remote machine.
    pub path: String,
}

#[derive(Debug)]
pub struct ReadFileArgs {
    /// Absolute path on the remote machine.
    pub path: String,
    /// Byte offset to start reading from.
    pub offset: Option<u64>,
    /// Maximum number of bytes to read.
    pub limit: Option<u64>,
}

#[derive(Debug)]
pub struct WriteFileArgs {
    /// Absolute path on the remote machine.
    pub path: String,
    /// File contents (UTF-8 text).
    pub content: String,
    /// Create parent directories if missing.
    pub create_dirs: Option<bool>,
}

/// Upload a local file to the connected target without mounting it.
#[derive(Debug)]
pub struct UploadFileArgs {
    /// Source file path on the local MCP machine.
    pub local_path: String,
    /// Destination file path on the remote target.
    pub remote_path: String,
    /// Create the remote parent directory when absent.
    pub create_dirs: Option<bool>,
}

/// Download a remote file to the local MCP machine without mounting it.
#[derive(Debug)]
pub struct DownloadFileArgs {
    /// Source file path on the remote target.
    pub remote_path: String,
    /// Destination file path on the local MCP machine.
    pub local_path: String,
    /// Create the local parent directory when absent.
    pub create_dirs: Option<bool>,
}

#[derive(Debug)]
pub struct MkdirArgs {
    /// Absolute path on the remote machine.
    pub path: String,
    /// Unix permission bits, e.g. 755.
    pub mode: Option<u32>,
}

#[derive(Debug)]
pub struct RemoveArgs {
    /// Absolute path on the remote machine.
    pub path: String,
    /// Remove non-empty directories recursively.
    pub recursive: Option<bool>,
}

#[derive(Debug)]
pub struct RenameArgs {
    /// Source path.
    pub from: String,
    /// Destination path.
    pub to: String,
}

#[derive(Debug)]
pub struct CopyArgs {
    /// Source path.
    pub from: String,
    /// Destination path.
    pub to: String,
    /// Copy directories recursively.
    pub recursive: Option<bool>,
}

#[derive(Debug)]
pub struct MountArgs {
    /// Absolute path on the remote machine to expose.
    pub remote_dir: String,
    /// Local directory where the remote folder will be mounted.
    pub mount_point: String,
    /// Mount read-only.
    pub read_only: Option<bool>,
}

#[derive(Debug)]
pub struct UnmountArgs {
    /// Local mount point to tear down.
    pub mount_point: String,
}

#[derive(Debug)]
pub struct GetCommandResultArgs {
    /// Execution id returned by `run_command` with `wait: false`.
    pub execution_id: u64,
    /// Return only the first N lines of output.
    pub head: Option<usize>,
    /// Return only the last N lines of output.
    pub tail: Option<usize>,
}

// ---------------------------------------------------------------------------
// Params of single calls
// ---------------------------------------------------------------------------

/// Params that hold a path alone.
pub open spec fn path_view(path: Seq<char>) -> JsonView {
    JsonView::Object(with_text(no_members(), "path"@, path))
}

/// Params that hold a path alone.
pub fn path_params(path: &str) -> (res: serde_json::Value)
    ensures
        json_view(res) == path_view(path@),
        json_view(res) == JsonView::Object(
            map![
                "path"@ => JsonView::Text(path@),
            ],
        ),
{
    let mut v = new_object();
    put(&mut v, "path", of_text(path));
    v
}

/// Params without members.
pub fn no_params() -> (res: serde_json::Value)
    ensures
        json_view(res) == JsonView::Object(no_members()),
{
    new_object()
}

/// Which bytes of a file are asked for.
pub open spec fn read_view(path: Seq<char>, offset: JsonView, limit: JsonView) -> JsonView {
    JsonView::Object(
        with_text(no_members(), "path"@, path).insert("offset"@, offset).insert("limit"@, limit),
    )
}

/// Params of a read of `limit` bytes from `offset` on.
pub fn read_params(path: &str, offset: u64, limit: u64) -> (res: serde_json::Value)
    ensures
        json_view(res) == read_view(path@, unsigned(offset), unsigned(limit)),
        json_view(res) == JsonView::Object(
            map![
                "path"@ => JsonView::Text(path@),
                "offset"@ => unsigned(offset),
                "limit"@ => unsigned(limit),
            ],
        ),
{
    let mut v = new_object();
    put(&mut v, "path", of_text(path));
    put(&mut v, "offset", of_u64(offset));
    put(&mut v, "limit", of_u64(limit));
    v
}

/// Params of a read.
pub fn read_file_params(args: &ReadFileArgs) -> (res: serde_json::Value)
    ensures
        json_view(res) == read_view(
            args.path@,
            opt_unsigned(args.offset),
            opt_unsigned(args.limit),
        ),
        json_view(res) == JsonView::Object(
            map![
                "path"@ => JsonView::Text(args.path@),
                "offset"@ => opt_unsigned(args.offset),
                "limit"@ => opt_unsigned(args.limit),
            ],
        ),
{
    let mut v = new_object();
    put(&mut v, "path", of_text(args.path.as_str()));
    put(&mut v, "offset", of_opt_u64(args.offset));
    put(&mut v, "limit", of_opt_u64(args.limit));
    v
}

/// What is written to which file.
pub open spec fn write_view(path: Seq<char>, data: Seq<char>, create_dirs: JsonView) -> JsonView {
    JsonView::Object(
        with_text(with_text(no_members(), "path"@, path), "data"@, data).insert(
            "create_dirs"@,
            create_dirs,
        ),
    )
}

/// Params of a write of `bytes`.
pub fn write_params(path: &str, bytes: &[u8], create_dirs: Option<bool>) -> (res: serde_json::Value)
    ensures
        json_view(res) == write_view(path@, base64_text(bytes@), opt_bool(create_dirs)),
        json_view(res) == JsonView::Object(
            map![
                "path"@ => JsonView::Text(path@),
                "data"@ => JsonView::Text(base64_text(bytes@)),
                "create_dirs"@ => opt_bool(create_dirs),
            ],
        ),
{
    let mut v = new_object();
    put(&mut v, "path", of_text(path));
    put(&mut v, "data", of_text(base64_encode(bytes).as_str()));
    put(&mut v, "create_dirs", of_opt_bool(create_dirs));
    v
}

/// Params of a write of nothing: the file is created, or emptied.
pub fn empty_file_params(path: &str, create_dirs: Option<bool>) -> (res: serde_json::Value)
    ensures
        json_view(res) == write_view(path@, ""@, opt_bool(create_dirs)),
        json_view(res) == JsonView::Object(
            map![
                "path"@ => JsonView::Text(path@),
                "data"@ => JsonView::Text(""@),
                "create_dirs"@ => opt_bool(create_dirs),
            ],
        ),
{
    let mut v = new_object();
    put(&mut v, "path", of_text(path));
    put(&mut v, "data", of_text(""));
    put(&mut v, "create_dirs", of_opt_bool(create_dirs));
    v
}

/// Params of a write of a text.
pub fn write_file_params(args: &WriteFileArgs) -> (res: serde_json::Value)
    ensures
        json_view(res) == write_view(
            args.path@,
            base64_text(vstd::utf8::encode_utf8(args.content@)),
            opt_bool(args.create_dirs),
        ),
{
    write_params(args.path.as_str(), args.content.as_str().as_bytes(), args.create_dirs)
}

/// Which bytes go where into a file.
pub open spec fn write_at_view(path: Seq<char>, offset: u64, data: Seq<char>) -> JsonView {
    JsonView::Object(
        with_text(
            with_text(no_members(), "path"@, path).insert("offset"@, unsigned(offset)),
            "data"@,
            data,
        ),
    )
}

/// Params of a write of `bytes` into a file at `offset`.
pub fn write_at_params(path: &str, offset: u64, bytes: &[u8]) -> (res: serde_json::Value)
    ensures
        json_view(res) == write_at_view(path@, offset, base64_text(bytes@)),
        json_view(res) == JsonView::Object(
            map![
                "path"@ => JsonView::Text(path@),
                "offset"@ => unsigned(offset),
                "data"@ => JsonView::Text(base64_text(bytes@)),
            ],
        ),
{
    let mut v = new_object();
    put(&mut v, "path", of_text(path));
    put(&mut v, "offset", of_u64(offset));
    put(&mut v, "data", of_text(base64_encode(bytes).as_str()));
    v
}

/// How long a file is to be.
pub open spec fn truncate_view(path: Seq<char>, size: u64) -> JsonView {
    JsonView::Object(with_text(no_members(), "path"@, path).insert("size"@, unsigned(size)))
}

/// Params of a truncation.
pub fn truncate_params(path: &str, size: u64) -> (res: serde_json::Value)
    ensures
        json_view(res) == truncate_view(path@, size),
        json_view(res) == JsonView::Object(
            map![
                "path"@ => JsonView::Text(path@),
                "size"@ => unsigned(size),
            ],
        ),
{
    let mut v = new_object();
    put(&mut v, "path", of_text(path));
    put(&mut v, "size", of_u64(size));
    v
}

/// The permission bits of a path.
pub open spec fn mode_view(path: Seq<char>, mode: Option<u32>) -> JsonView {
    JsonView::Object(
        with_text(no_members(), "path"@, path).insert(
            "mode"@,
            match mode {
                Some(mode) => unsigned(mode as u64),
                None => JsonView::Null,
            },
        ),
    )
}

/// Params that hold a path and permission bits.
pub fn mode_params(path: &str, mode: Option<u32>) -> (res: serde_json::Value)
    ensures
        json_view(res) == mode_view(path@, mode),
        mode is Some ==> json_view(res) == JsonView::Object(
            map!["path"@ => JsonView::Text(path@), "mode"@ => unsigned(mode->0 as u64)],
        ),
        mode is None ==> json_view(res) == JsonView::Object(
            map!["path"@ => JsonView::Text(path@), "mode"@ => JsonView::Null],
        ),
{
    let mut v = new_object();
    put(&mut v, "path", of_text(path));
    put(
        &mut v,
        "mode",
        match mode {
            Some(mode) => of_u64(mode as u64),
            None => null(),
        },
    );
    v
}

/// What is removed, and whether with everything below it.
pub open spec fn remove_view(path: Seq<char>, recursive: Option<bool>) -> JsonView {
    JsonView::Object(
        with_text(no_members(), "path"@, path).insert("recursive"@, opt_bool(recursive)),
    )
}

/// Params of a removal.
pub fn remove_params(path: &str, recursive: Option<bool>) -> (res: serde_json::Value)
    ensures
        json_view(res) == remove_view(path@, recursive),
        json_view(res) == JsonView::Object(
            map![
                "path"@ => JsonView::Text(path@),
                "recursive"@ => opt_bool(recursive),
            ],
        ),
{
    let mut v = new_object();
    put(&mut v, "path", of_text(path));
    put(&mut v, "recursive", of_opt_bool(recursive));
    v
}

/// From where to where.
pub open spec fn rename_view(from: Seq<char>, to: Seq<char>) -> JsonView {
    JsonView::Object(with_text(with_text(no_members(), "from"@, from), "to"@, to))
}

/// Params of a rename.
pub fn rename_params(from: &str, to: &str) -> (res: serde_json::Value)
    ensures
        json_view(res) == rename_view(from@, to@),
        json_view(res) == JsonView::Object(
            map![
                "from"@ => JsonView::Text(from@),
                "to"@ => JsonView::Text(to@),
            ],
        ),
{
    let mut v = new_object();
    put(&mut v, "from", of_text(from));
    put(&mut v, "to", of_text(to));
    v
}

/// Params of a copy.
pub fn copy_params(args: &CopyArgs) -> (res: serde_json::Value)
    ensures
        json_view(res) == JsonView::Object(
            with_text(with_text(no_members(), "from"@, args.from@), "to"@, args.to@).insert(
                "recursive"@,
                opt_bool(args.recursive),
            ),
        ),
{
    let mut v = new_object();
    put(&mut v, "from", of_text(args.from.as_str()));
    put(&mut v, "to", of_text(args.to.as_str()));
    put(&mut v, "recursive", of_opt_bool(args.recursive));
    v
}

/// A link and where it points to.
pub open spec fn symlink_view(link: Seq<char>, target: Seq<char>) -> JsonView {
    JsonView::Object(with_text(with_text(no_members(), "link"@, link), "target"@, target))
}

/// Params of a new symlink.
pub fn symlink_params(link: &str, target: &str) -> (res: serde_json::Value)
    ensures
        json_view(res) == symlink_view(link@, target@),
        json_view(res) == JsonView::Object(
            map![
                "link"@ => JsonView::Text(link@),
                "target"@ => JsonView::Text(target@),
            ],
        ),
{
    let mut v = new_object();
    put(&mut v, "link", of_text(link));
    put(&mut v, "target", of_text(target));
    v
}

// ---------------------------------------------------------------------------
// Commands
// ---------------------------------------------------------------------------

/// Params of a command.
pub fn run_command_params(args: &RunCommandArgs) -> (res: serde_json::Value)
    ensures
        json_view(res) == JsonView::Object(
            with_text(no_members(), "command"@, args.command@).insert(
                "cwd"@,
                opt_text_view(args.cwd),
            ).insert("timeout_secs"@, opt_unsigned(args.timeout_secs)).insert(
                "input"@,
                opt_text_view(args.input),
            ).insert("wait"@, opt_bool(args.wait)),
        ),
{
    let mut v = new_object();
    put(&mut v, "command", of_text(args.command.as_str()));
    put(&mut v, "cwd", of_opt_text(&args.cwd));
    put(&mut v, "timeout_secs", of_opt_u64(args.timeout_secs));
    put(&mut v, "input", of_opt_text(&args.input));
    put(&mut v, "wait", of_opt_bool(args.wait));
    v
}

/// How many seconds the answer to a command is awaited: 5 minutes unless told
/// otherwise, and without end where that is 0.
pub open spec fn wait_bound(request_timeout_secs: Option<u64>) -> Option<u64> {
    match request_timeout_secs {
        Some(secs) => if secs > 0 {
            Some(secs)
        } else {
            None
        },
        None => Some(300),
    }
}

/// How many seconds the answer to a command is awaited.
pub fn wait_secs(args: &RunCommandArgs) -> (res: Option<u64>)
    ensures
        res == wait_bound(args.request_timeout_secs),
        args.request_timeout_secs is None ==> res == Some(300u64),
        args.request_timeout_secs == Some(0u64) ==> res is None,
        args.request_timeout_secs is Some && args.request_timeout_secs->0 > 0 ==> res
            == args.request_timeout_secs,
{
    match args.request_timeout_secs {
        Some(secs) => if secs > 0 {
            Some(secs)
        } else {
            None
        },
        None => Some(300),
    }
}

/// What is added to the output of a command that has ended: nothing where it
/// exited with 0 or was killed by a signal.
pub open spec fn ending_note(exit_code: Option<i32>, timed_out: bool) -> Seq<char> {
    if timed_out {
        "\n[command timed out]"@
    } else if exit_code is Some && exit_code->0 != 0 {
        "\n[exit code: "@ + signed_decimal(exit_code->0 as int) + "]"@
    } else {
        Seq::empty()
    }
}

/// Adds the note on how a command ended.
fn append_ending(text: &mut String, exit_code: Option<i32>, timed_out: bool)
    ensures
        final(text)@ == old(text)@ + ending_note(exit_code, timed_out),
        timed_out ==> final(text)@ == old(text)@ + "\n[command timed out]"@,
        !timed_out && exit_code is Some && exit_code->0 != 0 ==> final(text)@ == old(text)@
            + "\n[exit code: "@ + signed_decimal(exit_code->0 as int) + "]"@,
        !timed_out && (exit_code is None || exit_code->0 == 0) ==> final(text)@ == old(text)@,
{
    let ghost before = text@;
    if timed_out {
        text.append("\n[command timed out]");
    } else if let Some(code) = exit_code {
        if code != 0 {
            text.append("\n[exit code: ");
            text.append(signed_decimal_text(code as i64).as_str());
            text.append("]");
        }
    }
    assert(text@ =~= before + ending_note(exit_code, timed_out));
    assert(!timed_out && (exit_code is None || exit_code->0 == 0) ==> text@ =~= before);
    assert(!timed_out && exit_code is Some && exit_code->0 != 0 ==> text@ =~= before
        + "\n[exit code: "@ + signed_decimal(exit_code->0 as int) + "]"@);
}

/// How the answer to a command reads.
pub open spec fn command_text(r: RunCommandResult) -> Seq<char> {
    match r.execution_id {
        Some(id) => json_text(
            JsonView::Object(
                with_text(
                    no_members().insert("execution_id"@, unsigned(id)),
                    "status"@,
                    "running"@,
                ),
            ),
        ),
        None => r.output@ + ending_note(r.exit_code, r.timed_out),
    }
}

/// How the answer to a command reads: its output and how it ended, or the id
/// by which the result of a running command is fetched.
pub fn run_command_text(result: &RunCommandResult) -> (res: String)
    ensures
        res@ == command_text(*result),
        result.execution_id is Some ==> res@ == json_text(
            JsonView::Object(
                map![
                    "execution_id"@ => unsigned(result.execution_id->0),
                    "status"@ => JsonView::Text("running"@),
                ],
            ),
        ),
        result.execution_id is None && result.timed_out ==> res@ == result.output@
            + "\n[command timed out]"@,
        result.execution_id is None && !result.timed_out && (result.exit_code is None
            || result.exit_code->0 == 0) ==> res@ == result.output@,
        result.execution_id is None && !result.timed_out && result.exit_code is Some
            && result.exit_code->0 != 0 ==> res@ == result.output@ + "\n[exit code: "@
            + signed_decimal(result.exit_code->0 as int) + "]"@,
{
    if let Some(id) = result.execution_id {
        let mut v = new_object();
        put(&mut v, "execution_id", of_u64(id));
        put(&mut v, "status", of_text("running"));
        return render(&v);
    }
    let mut text = result.output.clone();
    append_ending(&mut text, result.exit_code, result.timed_out);
    text
}

/// Params of a fetch of a command's result.
pub fn get_command_result_params(args: &GetCommandResultArgs) -> (res: serde_json::Value)
    ensures
        json_view(res) == JsonView::Object(
            no_members().insert("execution_id"@, unsigned(args.execution_id)).insert(
                "head"@,
                count_view(args.head),
            ).insert("tail"@, count_view(args.tail)),
        ),
{
    let mut v = new_object();
    put(&mut v, "execution_id", of_u64(args.execution_id));
    put(&mut v, "head", of_count(args.head));
    put(&mut v, "tail", of_count(args.tail));
    v
}

/// An optional number of lines.
pub open spec fn count_view(n: Option<usize>) -> JsonView {
    match n {
        Some(n) => unsigned(n as u64),
        None => JsonView::Null,
    }
}

fn of_count(n: Option<usize>) -> (res: serde_json::Value)
    ensures
        json_view(res) == count_view(n),
        n is None ==> json_view(res) == JsonView::Null,
        n is Some ==> json_view(res) == unsigned(n->0 as u64),
{
    match n {
        Some(n) => of_u64(n as u64),
        None => null(),
    }
}

/// How the state of a background command reads.
pub open spec fn command_state_text(r: GetCommandResult) -> Seq<char> {
    r.output@ + if r.done {
        ending_note(r.exit_code, r.timed_out == Some(true))
    } else {
        "\n[still running]"@
    }
}

/// How the state of a background command reads.
pub fn get_command_result_text(result: &GetCommandResult) -> (res: String)
    ensures
        res@ == command_state_text(*result),
        !result.done ==> res@ == result.output@ + "\n[still running]"@,
        result.done && result.timed_out == Some(true) ==> res@ == result.output@
            + "\n[command timed out]"@,
        result.done && result.timed_out != Some(true) && (result.exit_code is None
            || result.exit_code->0 == 0) ==> res@ == result.output@,
        result.done && result.timed_out != Some(true) && result.exit_code is Some
            && result.exit_code->0 != 0 ==> res@ == result.output@ + "\n[exit code: "@
            + signed_decimal(result.exit_code->0 as int) + "]"@,
{
    let mut text = result.output.clone();
    if result.done {
        let timed_out = match result.timed_out {
            Some(timed_out) => timed_out,
            None => false,
        };
        append_ending(&mut text, result.exit_code, timed_out);
    } else {
        text.append("\n[still running]");
    }
    text
}

// ---------------------------------------------------------------------------
// Answers of other tools
// ---------------------------------------------------------------------------

/// How the answer to a read reads.
pub fn read_file_text(result: &ReadFileResult) -> (res: String)
    ensures
        res@ == json_text(read_result_view(*result)),
        res@ == json_text(
            JsonView::Object(
                map!["data"@ => JsonView::Text(result.data@), "eof"@ => JsonView::Bool(result.eof)],
            ),
        ),
{
    render(&read_result_value(result))
}

/// How the answer to a write reads.
pub fn write_file_text(result: &WriteFileResult) -> (res: String)
    ensures
        res@ == "wrote "@ + decimal(result.bytes_written as nat) + " bytes"@,
{
    let mut text = "wrote ".to_owned();
    push_decimal(&mut text, result.bytes_written);
    text.append(" bytes");
    text
}

/// How an answer reads that is shown as it came.
pub fn value_text(result: &serde_json::Value) -> (res: String)
    ensures
        res@ == json_text(json_view(*result)),
{
    render(result)
}

/// The letter for a kind of file.
pub open spec fn kind_letter(kind: FileKind) -> Seq<char> {
    match kind {
        FileKind::Dir => "d"@,
        FileKind::File => "-"@,
        FileKind::Symlink => "l"@,
        FileKind::Other => "?"@,
    }
}

/// How an entry of a directory reads: kind, size in ten columns, name.
pub open spec fn entry_line(e: crate::protocol::DirEntry) -> Seq<char> {
    kind_letter(e.kind) + " "@ + right_aligned(decimal(e.size as nat), 10) + " "@ + e.name@
}

/// How a listing reads: a line for each entry.
pub fn list_dir_text(result: &ListDirResult) -> (res: String)
    ensures
        res@ == joined(
            result.entries@.map_values(|e: crate::protocol::DirEntry| entry_line(e)),
            "\n"@,
        ),
        res@ == joined(
            Seq::new(
                result.entries@.len(),
                |i: int|
                    (match result.entries@[i].kind {
                        FileKind::Dir => "d"@,
                        FileKind::File => "-"@,
                        FileKind::Symlink => "l"@,
                        FileKind::Other => "?"@,
                    }) + " "@ + right_aligned(decimal(result.entries@[i].size as nat), 10) + " "@
                        + result.entries@[i].name@,
            ),
            "\n"@,
        ),
{
    let ghost wanted = result.entries@.map_values(|e: crate::protocol::DirEntry| entry_line(e));
    let mut lines: Vec<String> = Vec::new();
    let mut i: usize = 0;
    while i < result.entries.len()
        invariant
            i <= result.entries@.len(),
            lines@.len() == i,
            wanted == result.entries@.map_values(|e: crate::protocol::DirEntry| entry_line(e)),
            forall|k: int| 0 <= k < i ==> (#[trigger] lines@[k])@ == wanted[k],
        decreases result.entries@.len() - i,
    {
        let entry = &result.entries[i];
        let letter = match entry.kind {
            FileKind::Dir => "d",
            FileKind::File => "-",
            FileKind::Symlink => "l",
            FileKind::Other => "?",
        };
        let mut line = letter.to_owned();
        line.append(" ");
        line.append(right_align(decimal_text(entry.size).as_str(), 10).as_str());
        line.append(" ");
        line.append(entry.name.as_str());
        assert(line@ =~= entry_line(*entry));
        lines.push(line);
        i += 1;
    }
    assert(texts(lines@) =~= wanted);
    assert(wanted =~= Seq::new(
        result.entries@.len(),
        |i: int|
            (match result.entries@[i].kind {
                FileKind::Dir => "d"@,
                FileKind::File => "-"@,
                FileKind::Symlink => "l"@,
                FileKind::Other => "?"@,
            }) + " "@ + right_aligned(decimal(result.entries@[i].size as nat), 10) + " "@
                + result.entries@[i].name@,
    ));
    join(lines.as_slice(), "\n")
}

/// How a connected target reads.
pub open spec fn target_line(t: crate::protocol::TargetInfo) -> Seq<char> {
    t.id@ + " (name="@ + t.name@ + ", session="@ + t.session@ + ")"@
}

/// How the connected targets read.
pub open spec fn targets_text(targets: Seq<crate::protocol::TargetInfo>) -> Seq<char> {
    if targets.len() == 0 {
        "no targets connected"@
    } else {
        joined(targets.map_values(|t: crate::protocol::TargetInfo| target_line(t)), "\n"@)
    }
}

/// How the connected targets read: a line for each.
pub fn list_targets_text(result: &ListTargetsResult) -> (res: String)
    ensures
        res@ == targets_text(result.targets@),
        result.targets@.len() == 0 ==> res@ == "no targets connected"@,
        result.targets@.len() > 0 ==> res@ == joined(
            Seq::new(
                result.targets@.len(),
                |i: int|
                    result.targets@[i].id@ + " (name="@ + result.targets@[i].name@ + ", session="@
                        + result.targets@[i].session@ + ")"@,
            ),
            "\n"@,
        ),
{
    if result.targets.len() == 0 {
        return "no targets connected".to_owned();
    }
    let ghost wanted = result.targets@.map_values(
        |t: crate::protocol::TargetInfo| target_line(t),
    );
    let mut lines: Vec<String> = Vec::new();
    let mut i: usize = 0;
    while i < result.targets.len()
        invariant
            i <= result.targets@.len(),
            lines@.len() == i,
            wanted == result.targets@.map_values(
                |t: crate::protocol::TargetInfo| target_line(t),
            ),
            forall|k: int| 0 <= k < i ==> (#[trigger] lines@[k])@ == wanted[k],
        decreases result.targets@.len() - i,
    {
        let target = &result.targets[i];
        let mut line = target.id.clone();
        line.append(" (name=");
        line.append(target.name.as_str());
        line.append(", session=");
        line.append(target.session.as_str());
        line.append(")");
        assert(line@ =~= target_line(*target));
        lines.push(line);
        i += 1;
    }
    assert(texts(lines@) =~= wanted);
    assert(wanted =~= Seq::new(
        result.targets@.len(),
        |i: int|
            result.targets@[i].id@ + " (name="@ + result.targets@[i].name@ + ", session="@
                + result.targets@[i].session@ + ")"@,
    ));
    join(lines.as_slice(), "\n")
}

/// How a new mount reads.
pub fn mount_text(args: &MountArgs) -> (res: String)
    ensures
        res@ == "mounted "@ + args.remote_dir@ + " at "@ + args.mount_point@,
{
    let mut text = "mounted ".to_owned();
    text.append(args.remote_dir.as_str());
    text.append(" at ");
    text.append(args.mount_point.as_str());
    text
}

/// Whether a mount is to be read-only.
pub fn is_read_only(args: &MountArgs) -> (res: bool)
    ensures
        res == (args.read_only == Some(true)),
{
    match args.read_only {
        Some(read_only) => read_only,
        None => false,
    }
}

/// How the active mounts read: a line for each.
pub fn list_mounts_text(mounts: &[String]) -> (res: String)
    ensures
        res@ == if mounts@.len() == 0 {
            "no mounts"@
        } else {
            joined(texts(mounts@), "\n"@)
        },
{
    if mounts.len() == 0 {
        "no mounts".to_owned()
    } else {
        join(mounts, "\n")
    }
}

} // verus!
