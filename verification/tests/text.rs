use relayfs::encoding::base64_decode;
use relayfs::ids::{contains_id, remove_id};
use relayfs::path::{
    absolute, components, file_name, join_path, normalized, parent, strip_prefix, with_extension,
};
use relayfs::protocol::encode::{
    command_state_value, hello_value, list_result_value, ping_result_value, run_result_value,
    stat_result_value, write_result_value,
};
use relayfs::protocol::{
    DirEntry, FileKind, GetCommandResult, Hello, ListDirResult, PeerKind, PingResult,
    RunCommandResult, StatResult, WriteFileResult,
};
use relayfs::text::{
    contains, decimal_text, ends_with, join, lines, right_align, signed_decimal_text, split,
    split_once, starts_with, text_before, trim, trim_end_char,
};

/// What std says of a path, as texts.
fn std_parent(p: &str) -> Option<String> {
    std::path::Path::new(p).parent().map(|p| p.to_string_lossy().into_owned())
}

fn std_name(p: &str) -> Option<String> {
    std::path::Path::new(p).file_name().map(|p| p.to_string_lossy().into_owned())
}

const PATHS: [&str; 22] = [
    "", "/", "a", "/a", "a/", "/a/", "a/b", "/a/b", "a//b", "//a", "./a", "a/.", "a/./b", "..",
    "a/..", "../a", ".", "/.", "/..", "a.txt", "/x/.hidden", "a.b.c/",
];

#[test]
fn paths_are_taken_apart_as_std_does() {
    for p in PATHS {
        assert_eq!(parent(p), std_parent(p), "parent of {p:?}");
        assert_eq!(file_name(p), std_name(p), "file name of {p:?}");
        assert_eq!(absolute(p), std::path::Path::new(p).is_absolute(), "{p:?}");
        let rebuilt: std::path::PathBuf = std::path::Path::new(p).components().collect();
        assert_eq!(normalized(p), rebuilt.to_string_lossy(), "{p:?}");
        assert_eq!(
            with_extension(p, "tmp"),
            std::path::Path::new(p).with_extension("tmp").to_string_lossy(),
            "{p:?}"
        );
        for q in PATHS {
            assert_eq!(
                join_path(p, q),
                std::path::Path::new(p).join(q).to_string_lossy(),
                "{p:?} and {q:?}"
            );
            assert_eq!(
                strip_prefix(p, q).map(std::path::PathBuf::from),
                std::path::Path::new(p).strip_prefix(q).ok().map(|r| r.to_path_buf()),
                "{p:?} below {q:?}"
            );
        }
    }
    assert_eq!(components("/a//./b"), vec!["/", "a", "b"]);
}

#[test]
fn texts_are_searched_as_std_does() {
    for s in ["", "abc", "aXbXc", "XX", "a\u{e9}X"] {
        assert_eq!(split(s, 'X'), s.split('X').collect::<Vec<_>>());
        assert_eq!(
            split_once(s, 'X'),
            s.split_once('X').map(|(a, b)| (a.to_string(), b.to_string()))
        );
        for p in ["", "a", "X", "abc", "XX", "bX"] {
            assert_eq!(starts_with(s, p), s.starts_with(p));
            assert_eq!(ends_with(s, p), s.ends_with(p));
            assert_eq!(contains(s, p), s.contains(p));
        }
        assert_eq!(trim_end_char(s, 'X'), s.trim_end_matches('X'));
    }
    for s in ["", "\n", "a", "a\n", "a\nb", "a\r\nb\r", "\n\n", "a\n\nb\n"] {
        assert_eq!(lines(s), s.lines().collect::<Vec<_>>(), "{s:?}");
    }
    for s in ["", " ", " a b\t\n", "\u{a0}x\u{2003}", "x", "\u{200b}x", "\u{85}y\u{3000}"] {
        assert_eq!(trim(s), s.trim(), "{s:?}");
    }
    let parts = ["a".to_string(), "".to_string(), "b".to_string()];
    assert_eq!(join(&parts, ", "), "a, , b");
    assert_eq!(join(&[], ", "), "");
}

#[test]
fn numbers_are_written() {
    for n in [0u64, 7, 10, 12345, u64::MAX] {
        assert_eq!(decimal_text(n), n.to_string());
    }
    for n in [0i64, -1, 42, i64::MIN, i64::MAX] {
        assert_eq!(signed_decimal_text(n), n.to_string());
    }
    assert_eq!(right_align("7", 3), "  7");
    assert_eq!(right_align("1234", 3), "1234");
}

#[test]
fn texts_are_ordered_as_std_does() {
    let texts = ["", "a", "aa", "b", "Z", "\u{e9}", "a\u{e9}", "\u{1f600}", "\u{ffff}"];
    for a in texts {
        for b in texts {
            assert_eq!(text_before(a, b), a < b, "{a:?} {b:?}");
        }
    }
}

#[test]
fn base64_errors_are_labelled() {
    assert_eq!(base64_decode("aGk=", "bad: ").unwrap(), b"hi");
    assert!(base64_decode("a", "bad: ").unwrap_err().starts_with("bad: "));
}

#[test]
fn ids_are_removed() {
    let mut ids = vec![1, 2, 1, 3];
    assert!(contains_id(&ids, 1));
    remove_id(&mut ids, 1);
    assert_eq!(ids, vec![2, 3]);
    assert!(!contains_id(&ids, 1));
}

#[test]
fn messages_are_written_field_by_field() {
    let h = Hello {
        kind: PeerKind::Agent,
        id: "agent-1".to_string(),
        name: "prod".to_string(),
        token: Some("secret".to_string()),
    };
    let v = hello_value(&h);
    assert_eq!((v["id"].as_str(), v["kind"].as_str()), (Some("agent-1"), Some("agent")));
    assert_eq!(v["token"], "secret");
    let r = RunCommandResult {
        exit_code: Some(-1),
        timed_out: true,
        output: "x".to_string(),
        execution_id: None,
    };
    let v = run_result_value(&r);
    assert_eq!(v["exit_code"], -1);
    assert_eq!(v["timed_out"], true);
    assert_eq!(v["output"], "x");
    let g = GetCommandResult {
        done: true,
        exit_code: Some(0),
        timed_out: Some(false),
        output: "y".to_string(),
    };
    let v = command_state_value(&g);
    assert_eq!(v["done"], true);
    assert_eq!(v["timed_out"], false);
    let l = ListDirResult {
        entries: vec![DirEntry {
            name: "n".to_string(),
            kind: FileKind::Symlink,
            size: 3,
            modified: 4,
        }],
    };
    let v = list_result_value(&l);
    assert_eq!(v["entries"][0]["kind"], "symlink");
    assert_eq!(v["entries"][0]["modified"], 4);
    let s = StatResult {
        kind: FileKind::Other,
        size: 1,
        modified: 2,
        mode: 3,
        uid: 4,
        gid: 5,
        link_target: None,
    };
    let v = stat_result_value(&s);
    assert_eq!(v["kind"], "other");
    assert_eq!(v["gid"], 5);
    assert!(v.get("link_target").is_none());
    let p = PingResult { ok: true, hostname: "h".to_string(), pid: 9 };
    assert_eq!(ping_result_value(&p).to_string(), "{\"hostname\":\"h\",\"ok\":true,\"pid\":9}");
    assert_eq!(write_result_value(&WriteFileResult { bytes_written: 8 })["bytes_written"], 8);
}
