use std::hash::{Hash, Hasher};

use relayfs::agent::files::FileRead;
use relayfs::bridge::attrs::Errno;
use relayfs::bridge::cache::{
    fetched_chunk, get_cache_dir, interrupted, is_wanted, numbered_cache_dir, numbered_temp,
    prefetch_tail, temp_path, FolderSync, Mirror, MirrorStep, Prefetch, ReadEvent, ReadOp,
    ReadStep, PREFETCH_CHUNK, READ_CHUNK, SYNC_CHUNK, SYNC_INFLIGHT,
};
use relayfs::protocol::{DirEntry, FileKind, ReadFileResult};

/// The answer to a read of `limit` bytes of a file that holds `bytes`.
fn read_of(bytes: &[u8], limit: u64) -> ReadFileResult {
    let mut read = FileRead::new(limit);
    let mut at = 0;
    while read.wanted() > 0 {
        let n = (read.wanted() as usize).min(bytes.len() - at);
        read.collect(&bytes[at..at + n]);
        at += n;
    }
    read.result()
}

fn entry(name: &str, kind: FileKind, size: u64) -> DirEntry {
    DirEntry { name: name.to_string(), kind, size, modified: 0 }
}

#[test]
fn cached_bytes_are_served() {
    let (mut op, step) = ReadOp::new(10, 100);
    assert!(matches!(step, ReadStep::ProbeLocal));
    match op.next(ReadEvent::Length(Some(60))) {
        ReadStep::ReadLocal { offset, len } => assert_eq!((offset, len), (10, 50)),
        other => panic!("unexpected {:?}", other),
    }
    match op.next(ReadEvent::Bytes(vec![1, 2])) {
        ReadStep::Reply { bytes, warm } => assert_eq!((bytes, warm), (vec![1, 2], false)),
        other => panic!("unexpected {:?}", other),
    }
    let (mut op, _) = ReadOp::new(0, 100);
    match op.next(ReadEvent::Length(Some(0))) {
        ReadStep::Reply { bytes, .. } => assert!(bytes.is_empty()),
        other => panic!("unexpected {:?}", other),
    }
}

#[test]
fn a_miss_is_fetched_stored_and_warmed() {
    let (mut op, _) = ReadOp::new(4, 2);
    match op.next(ReadEvent::Length(Some(4))) {
        ReadStep::Fetch { offset, limit } => assert_eq!((offset, limit), (4, READ_CHUNK)),
        other => panic!("unexpected {:?}", other),
    }
    assert!(matches!(
        op.next(ReadEvent::Chunk(read_of(b"abc", 10))),
        ReadStep::PrepareCache
    ));
    match op.next(ReadEvent::Length(Some(4))) {
        ReadStep::Store { offset, bytes } => assert_eq!((offset, bytes), (4, b"abc".to_vec())),
        other => panic!("unexpected {:?}", other),
    }
    match op.next(ReadEvent::Stored) {
        ReadStep::Reply { bytes, warm } => assert_eq!((bytes, warm), (b"ab".to_vec(), true)),
        other => panic!("unexpected {:?}", other),
    }
}

#[test]
fn a_far_read_leaves_no_hole() {
    let (mut op, _) = ReadOp::new(100, 3);
    op.next(ReadEvent::Length(None));
    op.next(ReadEvent::Chunk(read_of(b"abc", 10)));
    match op.next(ReadEvent::Length(Some(99))) {
        ReadStep::Reply { bytes, warm } => assert_eq!((bytes, warm), (b"abc".to_vec(), false)),
        other => panic!("unexpected {:?}", other),
    }
}

#[test]
fn an_offline_read_falls_back_to_the_cache() {
    let (mut op, _) = ReadOp::new(7, 3);
    op.next(ReadEvent::Length(None));
    match op.next(ReadEvent::Refused(Errno::ENOENT)) {
        ReadStep::ReadLocal { offset, len } => assert_eq!((offset, len), (7, 3)),
        other => panic!("unexpected {:?}", other),
    }
    match op.next(ReadEvent::Failed) {
        ReadStep::Fail { errno } => assert_eq!(errno, Errno::ENOENT),
        other => panic!("unexpected {:?}", other),
    }
    let (mut op, _) = ReadOp::new(7, 3);
    op.next(ReadEvent::Length(None));
    let bad = ReadFileResult { data: "!".to_string(), eof: true };
    match op.next(ReadEvent::Chunk(bad)) {
        ReadStep::Fail { errno } => assert_eq!(errno, Errno::EIO),
        other => panic!("unexpected {:?}", other),
    }
}

#[test]
fn the_rest_of_a_file_is_prefetched_in_order() {
    assert!(prefetch_tail(5, 5).is_empty());
    assert!(prefetch_tail(6, 5).is_empty());
    assert_eq!(
        prefetch_tail(10, 10 + PREFETCH_CHUNK + 1),
        vec![(10, PREFETCH_CHUNK), (10 + PREFETCH_CHUNK, 1)]
    );
    assert_eq!(prefetch_tail(0, PREFETCH_CHUNK), vec![(0, PREFETCH_CHUNK)]);
}

#[test]
fn a_chunk_without_bytes_is_none() {
    assert_eq!(fetched_chunk(&read_of(b"x", 5)), Some(b"x".to_vec()));
    assert_eq!(fetched_chunk(&read_of(b"", 5)), None);
    assert_eq!(fetched_chunk(&ReadFileResult { data: "?".to_string(), eof: false }), None);
}

#[test]
fn a_prefetch_stops_at_a_gap() {
    let mut p = Prefetch::new(vec![(10, 5), (15, 5), (20, 1)]);
    assert_eq!(p.fetched(Some(b"aaaaa".to_vec())), Some((10, b"aaaaa".to_vec())));
    assert!(p.stored(true));
    assert_eq!(p.fetched(Some(b"bbbbb".to_vec())), Some((15, b"bbbbb".to_vec())));
    assert!(p.stored(true));
    assert_eq!(p.fetched(None), None);
    assert_eq!(p.fetched(Some(b"c".to_vec())), None);
    let mut p = Prefetch::new(vec![(10, 5), (15, 5)]);
    p.fetched(Some(b"aaaaa".to_vec()));
    assert!(!p.stored(false));
    assert_eq!(p.fetched(Some(b"bbbbb".to_vec())), None);
    // A short chunk is a gap too, unless it is the last.
    let mut p = Prefetch::new(vec![(0, 5), (5, 5)]);
    assert_eq!(p.fetched(Some(b"a".to_vec())), None);
    assert_eq!(p.fetched(Some(b"bbbbb".to_vec())), None);
    let mut p = Prefetch::new(vec![(0, 5), (5, 5)]);
    assert_eq!(p.fetched(Some(b"aaaaa".to_vec())), Some((0, b"aaaaa".to_vec())));
    assert_eq!(p.fetched(Some(b"b".to_vec())), Some((5, b"b".to_vec())));
    assert_eq!(p.fetched(Some(b"c".to_vec())), None);
    assert_eq!(Prefetch::new(vec![(0, 5)]).fetched(Some(vec![])), None);
    assert_eq!(Prefetch::new(vec![]).fetched(Some(vec![1])), None);
}

#[test]
fn a_mirror_commits_whole_files() {
    let total = SYNC_CHUNK * 10 + 3;
    let mut m = Mirror::download_to_cache(total);
    let mut fetched = 0u64;
    let mut in_flight = Vec::new();
    loop {
        match m.next() {
            MirrorStep::Fetch { start, limit } => {
                assert_eq!(start, fetched);
                assert!(limit <= SYNC_CHUNK);
                fetched += limit;
                in_flight.push((start, limit));
                assert!(in_flight.len() <= SYNC_INFLIGHT);
            }
            MirrorStep::Await => {
                let (start, limit) = in_flight.pop().unwrap();
                m.ended(start, limit);
            }
            MirrorStep::Commit => break,
            other => panic!("unexpected {:?}", other),
        }
    }
    assert_eq!(fetched, total);
    assert!(in_flight.is_empty());
}

#[test]
fn an_interrupted_mirror_is_discarded() {
    let mut m = Mirror::download_to_cache(SYNC_CHUNK * 3);
    for _ in 0..3 {
        assert!(matches!(m.next(), MirrorStep::Fetch { .. }));
    }
    assert_eq!(m.next(), MirrorStep::Await);
    m.ended(0, SYNC_CHUNK);
    m.ended(SYNC_CHUNK, 0);
    assert_eq!(m.next(), MirrorStep::Await);
    m.ended(SYNC_CHUNK * 2, SYNC_CHUNK);
    assert_eq!(m.next(), MirrorStep::Discard);
    // A chunk before the last that was stored in part.
    let mut m = Mirror::download_to_cache(SYNC_CHUNK + 9);
    assert_eq!(m.next(), MirrorStep::Fetch { start: 0, limit: SYNC_CHUNK });
    assert_eq!(m.next(), MirrorStep::Fetch { start: SYNC_CHUNK, limit: 9 });
    m.ended(SYNC_CHUNK, 9);
    m.ended(0, SYNC_CHUNK - 1);
    assert_eq!(m.next(), MirrorStep::Discard);
    // The last one may be shorter: the file has shrunk.
    let mut m = Mirror::download_to_cache(9);
    assert_eq!(m.next(), MirrorStep::Fetch { start: 0, limit: 9 });
    m.ended(0, 8);
    assert_eq!(m.next(), MirrorStep::Commit);
    let mut m = Mirror::download_to_cache(9);
    m.next();
    m.ended(0, 0);
    assert_eq!(m.next(), MirrorStep::Discard);
    assert_eq!(Mirror::download_to_cache(0).next(), MirrorStep::CreateEmpty);
    assert_eq!(interrupted("/f"), "download of /f interrupted");
}

#[test]
fn temporary_files_of_the_mirror_are_numbered() {
    assert_eq!(numbered_temp("/c/a.txt", 0xab), "/c/a.tmp-000000ab");
    assert_eq!(numbered_temp("/c/a", 1), "/c/a.tmp-00000001");
    assert!(temp_path("/c/a.txt").starts_with("/c/a.tmp-"));
}

#[test]
fn folders_are_walked() {
    let mut sync = FolderSync::background_sync_folder("/srv/", "/cache");
    let (remote, local) = sync.next().unwrap();
    assert_eq!((remote.as_str(), local.as_str()), ("/srv/", "/cache"));
    assert!(sync.entry(&remote, &local, &entry("d", FileKind::Dir, 0)).is_none());
    assert!(sync.entry(&remote, &local, &entry("l", FileKind::Symlink, 0)).is_none());
    let w = sync.entry(&remote, &local, &entry("f", FileKind::File, 9)).unwrap();
    assert_eq!((w.remote.as_str(), w.local.as_str(), w.size), ("/srv/f", "/cache/f", 9));
    let (remote, local) = sync.next().unwrap();
    assert_eq!((remote.as_str(), local.as_str()), ("/srv/d", "/cache/d"));
    assert!(sync.entry(&remote, &local, &entry("e", FileKind::Dir, 0)).is_none());
    sync.stop();
    assert!(sync.next().is_none());
    assert!(is_wanted(9, None));
    assert!(is_wanted(9, Some(8)));
    assert!(!is_wanted(9, Some(9)));
}

#[test]
fn the_cache_has_its_place() {
    assert_eq!(numbered_cache_dir(0xff, Some("/c"), Some("/h"), "/t"), "/c/00000000000000ff");
    assert_eq!(
        numbered_cache_dir(1, None, Some("/h"), "/t"),
        "/h/.cache/relayfs/mounts/0000000000000001"
    );
    assert_eq!(numbered_cache_dir(1, None, None, "/t"), "/t/relayfs-mounts/0000000000000001");
}

#[test]
fn a_mount_is_numbered_by_the_hash_of_its_texts() {
    let mut hasher = std::collections::hash_map::DefaultHasher::new();
    "/srv/data".hash(&mut hasher);
    "/mnt/d\u{e4}ta".hash(&mut hasher);
    assert_eq!(
        get_cache_dir("/srv/data", "/mnt/d\u{e4}ta", Some("/c"), None, "/t"),
        format!("/c/{:016x}", hasher.finish())
    );
    assert_ne!(
        get_cache_dir("/srv/data", "/mnt/a", None, None, "/t"),
        get_cache_dir("/srv/data", "/mnt/b", None, None, "/t")
    );
}
