use relayfs::agent::files::Metadata;
use relayfs::bridge::attrs::{
    attr_from_metadata, attr_from_stat, errno_for, file_type, local_type, out_of_reach, permanent,
    send_fatal, send_outcome, Errno, FileType,
};
use relayfs::bridge::fuse_fs::{
    call_reply, dir_entries, list_call, mirror_dirs, readlink, stat_call, write_reply,
    write_through, FsReply, FsStep, Listing, Plan, RemoteFs,
};
use relayfs::bridge::inodes::InodeMap;
use relayfs::bridge::mounts::{check_target, MountManager};
use relayfs::bridge::uploads::SendOutcome;
use relayfs::protocol::{code, DirEntry, FileKind, ListDirResult, RpcError, StatResult};

fn stat(kind: FileKind) -> StatResult {
    StatResult {
        kind,
        size: 1025,
        modified: 77,
        mode: 0o100644,
        uid: 5,
        gid: 6,
        link_target: None,
    }
}

fn meta(is_dir: bool, is_symlink: bool) -> Metadata {
    Metadata {
        is_dir,
        is_file: !is_dir && !is_symlink,
        is_symlink,
        size: 512,
        modified: None,
        mode: 0o40755,
        uid: 1,
        gid: 2,
    }
}

fn error(message: &str) -> RpcError {
    RpcError::new(code::INTERNAL_ERROR, message)
}

fn fs(read_only: bool) -> RemoteFs {
    RemoteFs::new("/srv/data", "/cache/x", read_only)
}

fn names(plan: &Plan) -> Vec<String> {
    plan.steps
        .iter()
        .map(|s| match s {
            FsStep::Drain { paths } => format!("drain {}", paths.join(" ")),
            FsStep::Settle { path } => format!("settle {path}"),
            FsStep::Call { method, params } => format!("{method} {params}"),
            FsStep::MakeDir { path } => format!("mkdir {path}"),
            FsStep::MakeParent { path } => format!("parent {path}"),
            FsStep::CreateFile { path } => format!("create {path}"),
            FsStep::SetMode { path, mode } => format!("mode {path} {mode:o}"),
            FsStep::SetLen { path, len } => format!("len {path} {len}"),
            FsStep::RemoveFile { path } => format!("rm {path}"),
            FsStep::RemoveDir { path } => format!("rmdir {path}"),
            FsStep::MakeSymlink { target, link } => format!("ln {target} {link}"),
            FsStep::Rename { from, to } => format!("mv {from} {to}"),
        })
        .collect()
}

fn refused(plan: &Plan, errno: Errno) -> bool {
    plan.steps.is_empty() && matches!(plan.reply, FsReply::Error { errno: e } if e == errno)
}

#[test]
fn paths_map_into_the_cache() {
    let fs = fs(false);
    assert_eq!(fs.cache_path("/srv/data/a/b"), "/cache/x/a/b");
    assert_eq!(fs.cache_path("/srv/data"), "/cache/x/");
    assert_eq!(fs.cache_path("/other/c"), "/cache/x/c");
    assert_eq!(fs.upload_source("/srv/data/a"), "/cache/x/a");
    assert_eq!(fs.path_for(1).as_deref(), Some("/srv/data"));
    assert_eq!(fs.path_for(2), None);
}

#[test]
fn children_get_numbers() {
    let mut fs = fs(false);
    assert_eq!(fs.child_path(1, "a").as_deref(), Some("/srv/data/a"));
    assert_eq!(fs.ino_for_path("/srv/data/a"), 2);
    assert_eq!(fs.path_for(2).as_deref(), Some("/srv/data/a"));
    assert_eq!(fs.child_path(9, "a"), None);
    assert_eq!(fs.child_path(2, "b").as_deref(), Some("/srv/data/a/b"));
}

#[test]
fn numbers_are_stable() {
    let mut m = InodeMap::new("/r");
    let a = m.ino_for("/r/a");
    let b = m.ino_for("/r/b");
    assert_eq!((a, b), (2, 3));
    assert_eq!(m.ino_for("/r/a"), 2);
    assert_eq!(m.ino_for("/r"), 1);
    assert_eq!(m.path(3).as_deref(), Some("/r/b"));
    assert_eq!(m.path(4), None);
    // The next number is 4.
    assert!(m.has_room(u64::MAX - 5));
    assert!(!m.has_room(u64::MAX - 4));
    assert!(fs(false).has_room(2));
}

#[test]
fn numbers_last() {
    let mut m = InodeMap::new("/r");
    let a = m.ino_for("/r/a");
    for i in 0..100 {
        m.ino_for(&format!("/r/b{i}"));
    }
    assert_eq!(m.ino_for("/r/./a"), a);
    assert_eq!(m.path(a).as_deref(), Some("/r/a"));
    assert_ne!(m.ino_for("/r/c"), a);
    assert_eq!(m.ino_for("/r/"), 1);
    assert_eq!(m.path(1).as_deref(), Some("/r"));
}

#[test]
fn a_resumed_listing_is_whole() {
    let entries = || -> Vec<(FileType, String)> {
        (0..5).map(|i| (FileType::RegularFile, format!("f{i}"))).collect()
    };
    let mut fs = fs(false);
    let whole: Vec<(u64, String)> = fs
        .readdir(1, "/srv/data", entries(), 0)
        .into_iter()
        .map(|l| (l.ino, l.name))
        .collect();
    let mut pieces = Vec::new();
    let mut offset = 0;
    loop {
        let lines = fs.readdir(1, "/srv/data", entries(), offset);
        if lines.is_empty() {
            break;
        }
        for line in lines.into_iter().take(2) {
            offset = line.next;
            pieces.push((line.ino, line.name));
        }
        fs.ino_for_path(&format!("/srv/data/other{offset}"));
    }
    assert_eq!(pieces, whole);
    assert_eq!(pieces.len(), 7);
}

#[test]
fn a_new_file_does_not_overtake_writes() {
    let mut fs = fs(false);
    let plan = fs.create(1, "a", 0o644);
    assert_eq!(
        names(&plan),
        vec![
            "parent /cache/x/a",
            "create /cache/x/a",
            "mode /cache/x/a 644",
            "drain /srv/data/a",
            "write_file {\"create_dirs\":false,\"data\":\"\",\"path\":\"/srv/data/a\"}",
            "chmod {\"mode\":420,\"path\":\"/srv/data/a\"}",
        ]
    );
    assert!(matches!(&plan.reply, FsReply::Attr { path } if path == "/srv/data/a"));
    let plan = fs.mknod(1, "b", 0o600);
    assert_eq!(plan.steps.len(), 5);
}

#[test]
fn directories_and_links_are_made() {
    let mut fs = fs(false);
    assert_eq!(
        names(&fs.mkdir(1, "d", 0o755)),
        vec!["mkdir /cache/x/d", "mkdir {\"mode\":493,\"path\":\"/srv/data/d\"}"]
    );
    assert_eq!(
        names(&fs.symlink(1, "l", "/t")),
        vec![
            "ln /t /cache/x/l",
            "drain /srv/data/l",
            "symlink {\"link\":\"/srv/data/l\",\"target\":\"/t\"}",
        ]
    );
}

#[test]
fn removals_flush_first() {
    let mut fs = fs(false);
    assert_eq!(
        names(&fs.unlink(1, "a")),
        vec![
            "drain /srv/data/a",
            "rm /cache/x/a",
            "remove {\"path\":\"/srv/data/a\",\"recursive\":false}",
        ]
    );
    assert_eq!(names(&fs.rmdir(1, "d"))[1], "rmdir /cache/x/d");
}

#[test]
fn a_rename_drains_both_paths() {
    let mut fs = fs(false);
    let plan = fs.rename(1, "a", 1, "b");
    assert_eq!(
        names(&plan),
        vec![
            "drain /srv/data/a /srv/data/b",
            "parent /cache/x/b",
            "mv /cache/x/a /cache/x/b",
            "rename {\"from\":\"/srv/data/a\",\"to\":\"/srv/data/b\"}",
        ]
    );
    assert!(matches!(plan.reply, FsReply::Done));
    assert!(refused(&fs.rename(1, "a", 99, "b"), Errno::ENOENT));
}

#[test]
fn attributes_are_set() {
    let fs = fs(false);
    let plan = fs.setattr(1, Some(0o700), Some(9));
    assert_eq!(
        names(&plan),
        vec![
            "drain /srv/data",
            "truncate {\"path\":\"/srv/data\",\"size\":9}",
            "len /cache/x/ 9",
            "chmod {\"mode\":448,\"path\":\"/srv/data\"}",
            "mode /cache/x/ 700",
        ]
    );
    assert!(fs.setattr(1, None, None).steps.is_empty());
    assert!(refused(&fs.setattr(5, None, Some(1)), Errno::ENOENT));
}

#[test]
fn a_read_only_mount_refuses_changes() {
    let mut fs = fs(true);
    assert!(refused(&fs.create(1, "a", 0), Errno::EROFS));
    assert!(refused(&fs.mknod(1, "a", 0), Errno::EROFS));
    assert!(refused(&fs.mkdir(1, "a", 0), Errno::EROFS));
    assert!(refused(&fs.unlink(1, "a"), Errno::EROFS));
    assert!(refused(&fs.rmdir(1, "a"), Errno::EROFS));
    assert!(refused(&fs.symlink(1, "a", "t"), Errno::EROFS));
    assert!(refused(&fs.rename(1, "a", 1, "b"), Errno::EROFS));
    assert!(refused(&fs.setattr(1, None, Some(0)), Errno::EROFS));
    assert!(refused(&fs.setattr(1, Some(0o600), None), Errno::EROFS));
    assert!(refused(&fs.setattr(44, None, Some(0)), Errno::ENOENT));
    let plan = fs.setattr(1, None, None);
    assert!(plan.steps.is_empty() && matches!(plan.reply, FsReply::Attr { .. }));
    assert_eq!(fs.write(1).unwrap_err(), Errno::EROFS);
    assert_eq!(fs.write(44).unwrap_err(), Errno::ENOENT);
    assert!(refused(&fs.unlink(44, "a"), Errno::ENOENT));
}

#[test]
fn closing_waits_for_the_target() {
    let fs = fs(false);
    assert_eq!(names(&fs.flush(1)), vec!["drain /srv/data"]);
    assert_eq!(names(&fs.release(1)), vec!["settle /srv/data"]);
    assert!(fs.flush(9).steps.is_empty());
    assert!(matches!(fs.flush(9).reply, FsReply::Done));
    let (remote, local) = fs.write(1).unwrap();
    assert_eq!((remote.as_str(), local.as_str()), ("/srv/data", "/cache/x/"));
}

#[test]
fn one_prefetch_at_a_time() {
    let mut fs = fs(false);
    let (remote, local) = fs.kick_prefetch("/srv/data/a").unwrap();
    assert_eq!((remote.as_str(), local.as_str()), ("/srv/data/a", "/cache/x/a"));
    assert!(fs.kick_prefetch("/srv/data/a").is_none());
    assert!(fs.kick_prefetch("/srv/data/b").is_some());
    fs.prefetch_done("/srv/data/a");
    assert!(fs.kick_prefetch("/srv/data/a").is_some());
}

#[test]
fn a_write_that_is_not_sent_fails() {
    assert_eq!(write_reply(5, Ok(())), Ok(5));
    assert_eq!(write_reply(5, Err(Errno::EACCES)), Err(Errno::EIO));
}

#[test]
fn a_refused_call_fails_the_plan() {
    let failed = |e: RpcError| {
        matches!(call_reply(FsReply::Done, Some(&e)), FsReply::Error { errno: Errno::EIO })
    };
    assert!(matches!(call_reply(FsReply::Done, None), FsReply::Done));
    assert!(failed(error("remove /d: Directory not empty (os error 39)")));
    assert!(failed(error("mkdir /d: Permission denied (os error 13)")));
    assert!(failed(RpcError::new(code::METHOD_NOT_FOUND, "unknown method: x")));
    // A target that is out of reach leaves the cache to go on with.
    assert!(!failed(RpcError::new(code::AGENT_OFFLINE, "agent is not connected")));
    assert!(!failed(RpcError::new(code::CANCELLED, "request timed out")));
    assert!(!failed(error("send failed: broken pipe")));
    assert!(out_of_reach(&error("agent forward failed: closed")));
    assert!(!out_of_reach(&error("rename /a -> /b: send failed: ")));
    let path = "/srv/data/a".to_string();
    match call_reply(FsReply::Attr { path }, Some(&RpcError::new(code::AGENT_OFFLINE, "x"))) {
        FsReply::Attr { path } => assert_eq!(path, "/srv/data/a"),
        other => panic!("unexpected {:?}", other),
    }
}

#[test]
fn calls_are_built() {
    match write_through("/f", 3, b"hi") {
        FsStep::Call { method, params } => {
            assert_eq!(method, "write_at");
            assert_eq!(params["data"], "aGk=");
        }
        other => panic!("unexpected {:?}", other),
    }
    assert!(matches!(stat_call("/f"), FsStep::Call { method: "stat", .. }));
    assert!(matches!(list_call("/f"), FsStep::Call { method: "list_dir", .. }));
}

#[test]
fn attributes_fall_back_to_the_cache() {
    let mut fs = fs(false);
    let (attr, step) = fs.attr_for("/srv/data/d", Ok(stat(FileKind::Dir)), None).unwrap();
    assert_eq!(attr.ino, 2);
    assert_eq!(attr.kind, FileType::Directory);
    assert!(matches!(step, Some(FsStep::MakeDir { path }) if path == "/cache/x/d"));
    let (attr, step) = fs
        .attr_for("/srv/data/d", Err(Errno::EIO), Some(meta(false, true)))
        .unwrap();
    assert_eq!(attr.kind, FileType::Symlink);
    assert!(step.is_none());
    assert_eq!(fs.attr_for("/srv/data/d", Err(Errno::EACCES), None).unwrap_err(), Errno::EACCES);
}

#[test]
fn stats_become_attributes() {
    let a = attr_from_stat(&stat(FileKind::File), 9);
    assert_eq!((a.ino, a.size, a.blocks, a.modified), (9, 1025, 2, Some(77)));
    assert_eq!((a.kind, a.perm, a.nlink), (FileType::RegularFile, 0o644, 1));
    assert_eq!((a.uid, a.gid, a.blksize), (5, 6, 4096));
    let a = attr_from_metadata(&meta(true, false), 3);
    assert_eq!((a.kind, a.perm, a.nlink, a.modified), (FileType::Directory, 0o755, 2, None));
    assert_eq!(file_type(FileKind::Other), FileType::RegularFile);
    assert_eq!(file_type(FileKind::Symlink), FileType::Symlink);
    assert_eq!(local_type(false, false), FileType::RegularFile);
}

#[test]
fn errors_become_error_numbers() {
    assert_eq!(errno_for(&error("open /f: No such file or directory")), Errno::ENOENT);
    assert_eq!(errno_for(&error("NOT FOUND")), Errno::ENOENT);
    assert_eq!(errno_for(&error("Permission denied")), Errno::EACCES);
    assert_eq!(errno_for(&error("File exists")), Errno::EEXIST);
    assert_eq!(errno_for(&error("Not a directory")), Errno::ENOTDIR);
    assert_eq!(errno_for(&error("Is a directory")), Errno::EISDIR);
    assert_eq!(errno_for(&error("relay connection offline (reconnecting)")), Errno::EIO);
}

#[test]
fn some_failures_are_for_good() {
    assert!(send_fatal(&RpcError::new(code::METHOD_NOT_FOUND, "x")));
    assert!(send_fatal(&error("Permission DENIED")));
    assert!(send_fatal(&error("no such file")));
    assert!(!send_fatal(&error("request timed out")));
    assert!(permanent("denied"));
    assert_eq!(send_outcome(true, None), SendOutcome::Sent);
    assert_eq!(send_outcome(false, None), SendOutcome::Retry);
    assert_eq!(send_outcome(true, Some(&error("not found"))), SendOutcome::Drop);
    assert_eq!(send_outcome(true, Some(&error("offline"))), SendOutcome::Retry);
}

#[test]
fn links_are_read() {
    let mut s = stat(FileKind::Symlink);
    s.link_target = Some("/t".to_string());
    assert_eq!(readlink(Ok(s)).unwrap(), "/t");
    assert_eq!(readlink(Ok(stat(FileKind::File))).unwrap_err(), Errno::EINVAL);
    assert_eq!(readlink(Err(Errno::ENOENT)).unwrap_err(), Errno::ENOENT);
}

#[test]
fn directories_are_listed() {
    let mut fs = fs(false);
    let e = |name: &str, kind| DirEntry { name: name.to_string(), kind, size: 0, modified: 0 };
    let remote = Listing::Entries(ListDirResult {
        entries: vec![e("a", FileKind::File), e("d", FileKind::Dir)],
    });
    let entries = dir_entries(remote, None).unwrap();
    let steps = mirror_dirs("/cache/x", &entries);
    assert_eq!(steps.len(), 1);
    assert!(matches!(&steps[0], FsStep::MakeDir { path } if path == "/cache/x/d"));
    let lines = fs.readdir(1, "/srv/data", entries, 0);
    let got: Vec<(u64, u64, &str)> =
        lines.iter().map(|l| (l.ino, l.next, l.name.as_str())).collect();
    assert_eq!(got, vec![(1, 1, "."), (1, 2, ".."), (2, 3, "a"), (3, 4, "d")]);
    assert_eq!(lines[3].kind, FileType::Directory);

    // Offline: what the cache holds.
    let local = vec![(FileType::RegularFile, "a".to_string())];
    let entries = dir_entries(Listing::Refused(Errno::EIO), Some(local)).unwrap();
    let lines = fs.readdir(1, "/srv/data", entries, 2);
    assert_eq!(lines.len(), 1);
    assert_eq!((lines[0].ino, lines[0].next), (2, 3));
    assert_eq!(dir_entries(Listing::Refused(Errno::EACCES), None).unwrap_err(), Errno::EACCES);
    assert_eq!(dir_entries(Listing::Malformed, Some(vec![])).unwrap_err(), Errno::EIO);
}

#[test]
fn one_mount_for_each_point() {
    let mut m = MountManager::new();
    assert!(!m.retire("/mnt"));
    m.mount("/mnt");
    m.mount("/other");
    assert!(m.retire("/mnt"));
    m.mount("/mnt");
    let mut list = m.list();
    list.sort();
    assert_eq!(list, vec!["/mnt", "/other"]);
    assert!(m.unmount("/mnt").is_ok());
    assert_eq!(m.unmount("/mnt").unwrap_err(), "no mount at /mnt");
    assert_eq!(m.leftovers(), vec!["/other"]);
}

#[test]
fn only_directories_are_mounted() {
    assert!(check_target("/srv", &stat(FileKind::Dir)).is_ok());
    assert_eq!(check_target("/srv", &stat(FileKind::File)).unwrap_err(), "/srv is not a directory");
}
