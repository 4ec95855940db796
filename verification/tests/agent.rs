use relayfs::agent::commands::{
    completion_message, outcome, run_command, spawn_error, trim_output, AgentState, Ending,
    OutputStreams, Stream,
};
use relayfs::agent::conn::{
    dispatch, retry_secs, send_notification, send_response, Dispatch, Operation,
};
use relayfs::agent::files::{
    copy, copy_dir_recursive, creates_dirs, dir_entry, failure, failure_between, file_kind,
    list_dir, mkdir, read_file, remove, stat, write_at, write_file, write_result, CopyMode,
    FileRead, FileStream, Metadata, Removal, DEFAULT_LIMIT,
};
use relayfs::protocol::{
    code, method, CopyParams, DirEntry, FileKind, GetCommandResultParams, MkdirParams,
    ReadFileParams, RemoveParams, RunCommandParams, WriteAtParams, WriteFileParams,
};
use relayfs::rpc::{notification_value, request_value};
use serde_json::Value;

fn object(members: &[(&str, Value)]) -> Value {
    let mut map = serde_json::Map::new();
    for (k, v) in members {
        map.insert(k.to_string(), v.clone());
    }
    Value::Object(map)
}

fn command(text: &str) -> RunCommandParams {
    RunCommandParams {
        command: text.to_string(),
        cwd: None,
        env: None,
        timeout_secs: None,
        input: None,
        wait: None,
    }
}

fn fetch(id: u64, head: Option<usize>, tail: Option<usize>) -> GetCommandResultParams {
    GetCommandResultParams { execution_id: id, head, tail }
}

fn entry(name: &str, size: u64) -> DirEntry {
    DirEntry { name: name.to_string(), kind: FileKind::File, size, modified: 0 }
}

// --- commands ---------------------------------------------------------------

#[test]
fn a_command_needs_text() {
    assert_eq!(run_command(&command(""), None).unwrap_err(), "command must not be empty");
    assert_eq!(run_command(&command(" \t\n"), None).unwrap_err(), "command must not be empty");
    assert!(run_command(&command(" ls "), None).is_ok());
}

#[test]
fn a_command_gets_its_defaults() {
    let c = run_command(&command("ls"), None).unwrap();
    assert_eq!(c.shell, "/bin/sh");
    assert_eq!(c.command, "ls");
    assert!(c.cwd.is_none() && c.env.is_empty() && c.input.is_none());
    assert!(c.wait);
    assert_eq!(c.deadline_secs, None);
}

#[test]
fn a_command_keeps_what_was_asked_for() {
    let mut p = command("read x && echo $x");
    p.cwd = Some("/tmp".to_string());
    p.input = Some("hello\n".to_string());
    p.timeout_secs = Some(7);
    p.wait = Some(false);
    let mut env = serde_json::Map::new();
    env.insert("FOO".to_string(), Value::from("bar"));
    env.insert("NUM".to_string(), Value::from(3));
    p.env = Some(env);
    let c = run_command(&p, Some("/bin/zsh".to_string())).unwrap();
    assert_eq!(c.shell, "/bin/zsh");
    assert_eq!(c.cwd.as_deref(), Some("/tmp"));
    assert_eq!(c.input.as_deref(), Some("hello\n"));
    assert_eq!(c.deadline_secs, Some(7));
    assert!(!c.wait);
    // Only texts override the environment.
    assert_eq!(c.env, vec![("FOO".to_string(), "bar".to_string())]);
    p.timeout_secs = Some(0);
    assert_eq!(run_command(&p, None).unwrap().deadline_secs, None);
}

#[test]
fn a_command_that_cannot_start_is_named() {
    assert_eq!(spawn_error("ls", "no shell"), "failed to spawn `ls`: no shell");
}

#[test]
fn output_is_recorded_and_forwarded() {
    let mut streams = OutputStreams::new();
    let mut output = String::new();
    let n = streams.step(9, Stream::Stdout, Some("one"), &mut output).unwrap();
    assert_eq!(n["method"], "command_output");
    assert_eq!(n["params"]["id"], 9);
    assert_eq!(n["params"]["stream"], "stdout");
    assert_eq!(n["params"]["data"], "one\n");
    let n = streams.step(9, Stream::Stderr, Some(""), &mut output).unwrap();
    assert_eq!(n["params"]["stream"], "stderr");
    assert_eq!(n["params"]["data"], "\n");
    assert_eq!(output, "one\n\n");
    assert!(streams.step(9, Stream::Stdout, None, &mut output).is_none());
    assert!(!streams.finished());
    assert!(streams.step(9, Stream::Stderr, None, &mut output).is_none());
    assert!(streams.finished());
    assert_eq!(output, "one\n\n");
}

#[test]
fn head_comes_before_tail() {
    let out = "a\nb\nc\r\nd\n";
    assert_eq!(trim_output(out, None, None), "a\nb\nc\nd");
    assert_eq!(trim_output(out, Some(2), None), "a\nb");
    assert_eq!(trim_output(out, None, Some(2)), "c\nd");
    assert_eq!(trim_output(out, Some(3), Some(1)), "c");
    assert_eq!(trim_output(out, Some(0), Some(5)), "");
    assert_eq!(trim_output(out, Some(9), Some(9)), "a\nb\nc\nd");
    assert_eq!(trim_output("", None, None), "");
}

#[test]
fn endings_are_reported() {
    assert_eq!(outcome(Ending::Exited(Some(3))), (Some(3), false));
    assert_eq!(outcome(Ending::Exited(None)), (None, false));
    assert_eq!(outcome(Ending::DeadlinePassed), (None, true));
    assert_eq!(completion_message(Some(0), false), "command finished: exit code 0");
    assert_eq!(completion_message(Some(-1), false), "command finished: exit code -1");
    assert_eq!(completion_message(None, false), "command finished: killed by signal");
    assert_eq!(completion_message(Some(0), true), "command finished: timed out");
}

#[test]
fn a_command_that_is_waited_for_is_answered_once() {
    let mut state = AgentState::new("t".to_string());
    assert!(state.start(5, true).is_none());
    let done = state.finish(5, Some(2), false, "out\n".to_string());
    assert_eq!(done.notification["method"], "command_finished");
    assert_eq!(done.notification["params"]["id"], 5);
    assert_eq!(done.notification["params"]["exit_code"], 2);
    assert_eq!(done.notification["params"]["timed_out"], false);
    assert_eq!(done.response["id"], 5);
    assert_eq!(done.response["result"]["exit_code"], 2);
    assert_eq!(done.response["result"]["output"], "out\n");
    assert!(state.kill_all().is_empty());
    assert_eq!(state.token, "t");
}

#[test]
fn a_background_result_is_kept_until_fetched() {
    let mut state = AgentState::new("t".to_string());
    let started = state.start(5, false).unwrap();
    assert_eq!(started.execution_id, Some(5));
    assert_eq!(started.exit_code, None);
    assert_eq!(started.output, "");
    state.append_output(5, "one\ntwo\n");
    let g = state.get_command_result(&fetch(5, None, Some(1))).unwrap();
    assert!(!g.done);
    assert_eq!(g.timed_out, None);
    assert_eq!(g.output, "two");
    state.append_output(5, "three\n");
    state.settle(5, Some((Some(0), false)));
    let g = state.get_command_result(&fetch(5, Some(2), None)).unwrap();
    assert!(g.done);
    assert_eq!(g.exit_code, Some(0));
    assert_eq!(g.timed_out, Some(false));
    assert_eq!(g.output, "one\ntwo");
    assert_eq!(
        state.get_command_result(&fetch(5, None, None)).unwrap_err(),
        "unknown execution id: 5"
    );
}

#[test]
fn a_background_command_can_end_in_the_unknown() {
    let mut state = AgentState::new("t".to_string());
    state.start(6, false);
    state.settle(6, None);
    state.settle(7, Some((Some(1), true)));
    let g = state.get_command_result(&fetch(6, None, None)).unwrap();
    assert!(g.done);
    assert_eq!(g.exit_code, None);
    assert_eq!(g.timed_out, Some(false));
    assert!(state.get_command_result(&fetch(7, None, None)).is_err());
}

#[test]
fn running_commands_are_killed_on_disconnect() {
    let mut state = AgentState::new("t".to_string());
    state.start(1, true);
    state.start(2, false);
    state.start(3, true);
    state.start(4, false);
    state.finish(1, None, true, String::new());
    state.settle(4, Some((Some(0), false)));
    state.forget(4);
    assert_eq!(state.kill_all(), vec![2, 3]);
    assert!(state.kill_all().is_empty());
}

// --- requests -----------------------------------------------------------------

#[test]
fn requests_are_dispatched_by_name() {
    let names = [
        (method::RUN_COMMAND, Operation::RunCommand),
        (method::GET_COMMAND_RESULT, Operation::GetCommandResult),
        (method::READ_FILE, Operation::ReadFile),
        (method::WRITE_FILE, Operation::WriteFile),
        (method::LIST_DIR, Operation::ListDir),
        (method::STAT, Operation::Stat),
        (method::MKDIR, Operation::Mkdir),
        (method::REMOVE, Operation::Remove),
        (method::RENAME, Operation::Rename),
        (method::COPY, Operation::Copy),
        (method::WRITE_AT, Operation::WriteAt),
        (method::TRUNCATE, Operation::Truncate),
        (method::SYMLINK, Operation::Symlink),
        (method::CHMOD, Operation::Chmod),
        (method::STREAM_FILE, Operation::StreamFile),
        (method::PING, Operation::Ping),
    ];
    for (name, wanted) in names {
        match dispatch(&request_value(3, name, Value::from("p"))) {
            Dispatch::Perform { id, op, params } => {
                assert_eq!(id, 3);
                assert_eq!(op, wanted);
                assert_eq!(params, "p");
            }
            other => panic!("unexpected {:?}", other),
        }
    }
}

#[test]
fn unknown_methods_are_refused() {
    match dispatch(&request_value(4, "fly", Value::Null)) {
        Dispatch::Answer(v) => {
            assert_eq!(v["id"], 4);
            assert_eq!(v["error"]["code"], code::METHOD_NOT_FOUND);
            assert_eq!(v["error"]["message"], "unknown method: fly");
        }
        other => panic!("unexpected {:?}", other),
    }
}

#[test]
fn frames_without_a_number_are_ignored() {
    assert!(matches!(dispatch(&notification_value("ping", Value::Null)), Dispatch::Ignore));
    let odd = object(&[("id", Value::from(-1)), ("method", Value::from("ping"))]);
    assert!(matches!(dispatch(&odd), Dispatch::Ignore));
    match dispatch(&object(&[("id", Value::from(1)), ("method", Value::from("ping"))])) {
        Dispatch::Perform { params, .. } => assert!(params.is_null()),
        other => panic!("unexpected {:?}", other),
    }
}

#[test]
fn answers_echo_the_id() {
    assert_eq!(
        send_response(8, Ok(Value::from(1))),
        "{\"id\":8,\"jsonrpc\":\"2.0\",\"result\":1}"
    );
    let v: Value = serde_json::from_str(&send_response(9, Err("gone".to_string()))).unwrap();
    assert_eq!(v["id"], 9);
    assert_eq!(v["error"]["code"], code::INTERNAL_ERROR);
    assert_eq!(v["error"]["message"], "gone");
    assert_eq!(
        send_notification("x", Value::Null),
        "{\"jsonrpc\":\"2.0\",\"method\":\"x\",\"params\":null}"
    );
}

#[test]
fn reconnecting_waits_a_second_at_least() {
    assert_eq!(retry_secs(0), 1);
    assert_eq!(retry_secs(5), 5);
}

// --- files --------------------------------------------------------------------

#[test]
fn reads_have_defaults() {
    let mut p = ReadFileParams { path: "/f".to_string(), offset: None, limit: None };
    assert_eq!(read_file(&p), (0, DEFAULT_LIMIT));
    p.offset = Some(3);
    p.limit = Some(4);
    assert_eq!(read_file(&p), (3, 4));
}

#[test]
fn a_short_read_is_not_the_end() {
    let mut read = FileRead::new(5);
    assert_eq!(read.wanted(), 5);
    read.collect(b"he");
    assert_eq!(read.wanted(), 3);
    read.collect(b"llo");
    assert_eq!(read.wanted(), 0);
    let r = read.result();
    assert_eq!(r.data, "aGVsbG8=");
    assert!(!r.eof);
}

#[test]
fn an_empty_read_is_the_end() {
    let mut read = FileRead::new(6);
    read.collect(b"hello");
    assert_eq!(read.wanted(), 1);
    read.collect(b"");
    assert_eq!(read.wanted(), 0);
    let r = read.result();
    assert_eq!(r.data, "aGVsbG8=");
    assert!(r.eof);
    let nothing = FileRead::new(0);
    assert_eq!(nothing.wanted(), 0);
    assert!(!nothing.result().eof);
}

#[test]
fn what_is_read_can_be_written() {
    let bytes: Vec<u8> = (0..=255u8).collect();
    let mut read = FileRead::new(256);
    read.collect(&bytes);
    let read = read.result();
    let p = WriteFileParams { path: "/f".to_string(), data: read.data, create_dirs: Some(true) };
    assert_eq!(write_file(&p).unwrap(), bytes);
    assert!(creates_dirs(&p));
    assert_eq!(write_result(&bytes).bytes_written, 256);
}

#[test]
fn bad_base64_is_refused() {
    let p = WriteFileParams { path: "/f".to_string(), data: "%%".to_string(), create_dirs: None };
    assert!(write_file(&p).unwrap_err().starts_with("invalid base64: "));
    assert!(!creates_dirs(&p));
    let p = WriteAtParams { path: "/f".to_string(), offset: 1, data: "aGk=".to_string() };
    assert_eq!(write_at(&p).unwrap(), b"hi");
    let p = WriteAtParams { path: "/f".to_string(), offset: 1, data: "aGk".to_string() };
    assert!(write_at(&p).is_err());
}

#[test]
fn a_stream_ends_with_its_size() {
    let mut s = FileStream::new(2);
    let (v, end) = s.stream_file(b"abc");
    assert!(!end);
    assert_eq!(v["method"], "stream_chunk");
    assert_eq!(v["params"]["id"], 2);
    assert_eq!(v["params"]["data"], "YWJj");
    let (v, end) = s.stream_file(b"");
    assert!(end);
    assert_eq!(v["method"], "stream_end");
    assert_eq!(v["params"]["total"], 3);
}

#[test]
fn metadata_becomes_an_answer() {
    let m = Metadata {
        is_dir: false,
        is_file: false,
        is_symlink: true,
        size: 4,
        modified: Some(99),
        mode: 0o777,
        uid: 1,
        gid: 2,
    };
    let s = stat(&m, Some("/target".to_string()));
    assert_eq!(s.kind, FileKind::Symlink);
    assert_eq!((s.size, s.modified, s.mode, s.uid, s.gid), (4, 99, 0o777, 1, 2));
    assert_eq!(s.link_target.as_deref(), Some("/target"));
    let plain = Metadata { is_file: true, is_symlink: false, modified: None, ..m };
    let s = stat(&plain, Some("/target".to_string()));
    assert_eq!(s.kind, FileKind::File);
    assert_eq!(s.modified, 0);
    assert_eq!(s.link_target, None);
    let e = dir_entry("n".to_string(), &plain);
    assert_eq!((e.name.as_str(), e.kind, e.size, e.modified), ("n", FileKind::File, 4, 0));
    assert_eq!(file_kind(true, false, false), FileKind::Dir);
    assert_eq!(file_kind(false, false, false), FileKind::Other);
}

#[test]
fn listings_are_sorted_by_name() {
    let r = list_dir(vec![entry("b", 1), entry("a", 2), entry("", 3), entry("a", 4), entry("\u{e9}", 5), entry("Z", 6)]);
    let got: Vec<(&str, u64)> = r.entries.iter().map(|e| (e.name.as_str(), e.size)).collect();
    assert_eq!(got, vec![("", 3), ("Z", 6), ("a", 2), ("a", 4), ("b", 1), ("\u{e9}", 5)]);
}

#[test]
fn directories_get_a_mode() {
    assert_eq!(mkdir(&MkdirParams { path: "/d".to_string(), mode: None }), 0o755);
    assert_eq!(mkdir(&MkdirParams { path: "/d".to_string(), mode: Some(0o700) }), 0o700);
}

#[test]
fn removal_depends_on_what_is_there() {
    let mut p = RemoveParams { path: "/d".to_string(), recursive: Some(true) };
    assert_eq!(remove(&p, true), Removal::Tree);
    p.recursive = None;
    assert_eq!(remove(&p, true), Removal::Directory);
    assert_eq!(remove(&p, false), Removal::File);
    p.recursive = Some(false);
    assert_eq!(remove(&p, true), Removal::Directory);
}

#[test]
fn a_directory_is_copied_only_recursively() {
    let mut p = CopyParams { from: "/a".to_string(), to: "/b".to_string(), recursive: None };
    assert_eq!(copy(&p, false).unwrap(), CopyMode::File);
    let refused = copy(&p, true).unwrap_err();
    assert!(refused.contains("/a"), "{refused}");
    p.recursive = Some(true);
    assert_eq!(copy(&p, true).unwrap(), CopyMode::Tree);
    let step = copy_dir_recursive("/a", "/b", "x", true);
    assert_eq!((step.from.as_str(), step.to.as_str(), step.descend), ("/a/x", "/b/x", true));
    assert!(!copy_dir_recursive("/a/", "/b/", "x", false).descend);
}

#[test]
fn failures_name_the_path() {
    assert_eq!(failure("read", "/f", "gone"), "read /f: gone");
    assert_eq!(failure_between("rename", "/a", "/b", "gone"), "rename /a -> /b: gone");
}
