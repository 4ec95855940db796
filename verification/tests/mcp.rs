use relayfs::bridge::mcp::{
    copy_params, empty_file_params, get_command_result_params, get_command_result_text,
    is_read_only, list_dir_text, list_mounts_text, list_targets_text, mode_params, mount_text,
    no_params, path_params, read_file_params, read_file_text, read_params, remove_params,
    rename_params, run_command_params, run_command_text, symlink_params, truncate_params,
    value_text, wait_secs, write_at_params, write_file_params, write_file_text, write_params,
    CopyArgs, GetCommandResultArgs, MountArgs, ReadFileArgs, RunCommandArgs, WriteFileArgs,
};
use relayfs::protocol::{
    DirEntry, FileKind, GetCommandResult, ListDirResult, ListTargetsResult, ReadFileResult,
    RunCommandResult, TargetInfo, WriteFileResult,
};

fn command() -> RunCommandArgs {
    RunCommandArgs {
        command: "ls".to_string(),
        cwd: None,
        timeout_secs: None,
        request_timeout_secs: None,
        wait: None,
        input: None,
    }
}

fn result(exit_code: Option<i32>, timed_out: bool) -> RunCommandResult {
    RunCommandResult { exit_code, timed_out, output: "out\n".to_string(), execution_id: None }
}

#[test]
fn commands_are_asked_for() {
    let mut args = command();
    args.cwd = Some("/tmp".to_string());
    args.timeout_secs = Some(3);
    args.wait = Some(false);
    let v = run_command_params(&args);
    assert_eq!(v["command"], "ls");
    assert_eq!(v["cwd"], "/tmp");
    assert_eq!(v["timeout_secs"], 3);
    assert_eq!(v["wait"], false);
    assert!(v["input"].is_null());
}

#[test]
fn waiting_has_a_bound() {
    let mut args = command();
    assert_eq!(wait_secs(&args), Some(300));
    args.request_timeout_secs = Some(9);
    assert_eq!(wait_secs(&args), Some(9));
    args.request_timeout_secs = Some(0);
    assert_eq!(wait_secs(&args), None);
}

#[test]
fn command_results_are_shown() {
    assert_eq!(run_command_text(&result(Some(0), false)), "out\n");
    assert_eq!(run_command_text(&result(Some(2), false)), "out\n\n[exit code: 2]");
    assert_eq!(run_command_text(&result(Some(-3), false)), "out\n\n[exit code: -3]");
    assert_eq!(run_command_text(&result(None, false)), "out\n");
    assert_eq!(run_command_text(&result(None, true)), "out\n\n[command timed out]");
    let mut running = result(None, false);
    running.execution_id = Some(17);
    assert_eq!(run_command_text(&running), "{\"execution_id\":17,\"status\":\"running\"}");
}

#[test]
fn background_results_are_shown() {
    let mut g = GetCommandResult {
        done: false,
        exit_code: None,
        timed_out: None,
        output: "so far".to_string(),
    };
    assert_eq!(get_command_result_text(&g), "so far\n[still running]");
    g.done = true;
    assert_eq!(get_command_result_text(&g), "so far");
    g.exit_code = Some(1);
    assert_eq!(get_command_result_text(&g), "so far\n[exit code: 1]");
    g.timed_out = Some(true);
    assert_eq!(get_command_result_text(&g), "so far\n[command timed out]");
    let v = get_command_result_params(&GetCommandResultArgs {
        execution_id: 4,
        head: Some(2),
        tail: None,
    });
    assert_eq!(v["execution_id"], 4);
    assert_eq!(v["head"], 2);
    assert!(v["tail"].is_null());
}

#[test]
fn listings_are_shown_in_columns() {
    let e = |name: &str, kind: FileKind, size: u64| DirEntry {
        name: name.to_string(),
        kind,
        size,
        modified: 0,
    };
    let r = ListDirResult {
        entries: vec![
            e("src", FileKind::Dir, 4096),
            e("a", FileKind::File, 7),
            e("l", FileKind::Symlink, 12345678901),
            e("o", FileKind::Other, 0),
        ],
    };
    assert_eq!(
        list_dir_text(&r),
        "d       4096 src\n-          7 a\nl 12345678901 l\n?          0 o"
    );
    assert_eq!(list_dir_text(&ListDirResult { entries: vec![] }), "");
}

#[test]
fn targets_are_listed() {
    assert_eq!(list_targets_text(&ListTargetsResult { targets: vec![] }), "no targets connected");
    let t = |id: &str| TargetInfo {
        id: id.to_string(),
        name: "n".to_string(),
        session: "s".to_string(),
    };
    assert_eq!(
        list_targets_text(&ListTargetsResult { targets: vec![t("a"), t("b")] }),
        "a (name=n, session=s)\nb (name=n, session=s)"
    );
}

#[test]
fn mounts_are_listed() {
    assert_eq!(list_mounts_text(&[]), "no mounts");
    assert_eq!(list_mounts_text(&["/a".to_string(), "/b".to_string()]), "/a\n/b");
    let mut args = MountArgs {
        remote_dir: "/srv".to_string(),
        mount_point: "/mnt".to_string(),
        read_only: None,
    };
    assert_eq!(mount_text(&args), "mounted /srv at /mnt");
    assert!(!is_read_only(&args));
    args.read_only = Some(true);
    assert!(is_read_only(&args));
}

#[test]
fn files_are_asked_for() {
    assert_eq!(path_params("/f").to_string(), "{\"path\":\"/f\"}");
    assert_eq!(no_params().to_string(), "{}");
    assert_eq!(read_params("/f", 1, 2).to_string(), "{\"limit\":2,\"offset\":1,\"path\":\"/f\"}");
    let args = ReadFileArgs { path: "/f".to_string(), offset: None, limit: Some(5) };
    assert_eq!(read_file_params(&args).to_string(), "{\"limit\":5,\"offset\":null,\"path\":\"/f\"}");
    let args = WriteFileArgs {
        path: "/f".to_string(),
        content: "h\u{e9}".to_string(),
        create_dirs: None,
    };
    let v = write_file_params(&args);
    assert_eq!(v["data"], "aMOp");
    assert!(v["create_dirs"].is_null());
    assert_eq!(write_params("/f", b"hi", Some(true))["data"], "aGk=");
    assert_eq!(empty_file_params("/f", Some(true))["data"], "");
    assert_eq!(write_at_params("/f", 9, b"hi")["offset"], 9);
    assert_eq!(truncate_params("/f", 3)["size"], 3);
    assert_eq!(mode_params("/f", Some(0o755))["mode"], 493);
    assert!(mode_params("/f", None)["mode"].is_null());
    assert_eq!(remove_params("/f", Some(true))["recursive"], true);
    assert_eq!(rename_params("/f", "/g")["from"], "/f");
    assert_eq!(symlink_params("/l", "/t")["target"], "/t");
    let args = CopyArgs { from: "/f".to_string(), to: "/g".to_string(), recursive: Some(false) };
    assert_eq!(copy_params(&args)["recursive"], false);
}

#[test]
fn answers_are_shown() {
    let r = ReadFileResult { data: "aGk=".to_string(), eof: true };
    assert_eq!(read_file_text(&r), "{\"data\":\"aGk=\",\"eof\":true}");
    assert_eq!(write_file_text(&WriteFileResult { bytes_written: 12 }), "wrote 12 bytes");
    assert_eq!(value_text(&serde_json::Value::from(vec![1, 2])), "[1,2]");
}
