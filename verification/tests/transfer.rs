use relayfs::agent::files::FileRead;
use relayfs::bridge::mcp::{DownloadFileArgs, UploadFileArgs};
use relayfs::bridge::transfer::{
    numbered_path, temporary_path, Download, Outcome, RemoteCall, Step, Upload,
    TRANSFER_CHUNK_BYTES,
};
use relayfs::path::{file_name, parent};
use relayfs::protocol::ReadFileResult;

/// The answer to a read of `limit` bytes of a file that holds `bytes`.
fn read_of(bytes: &[u8], limit: u64) -> ReadFileResult {
    let mut read = FileRead::new(limit);
    if !bytes.is_empty() {
        read.collect(bytes);
    }
    if read.wanted() > 0 {
        read.collect(&[]);
    }
    read.result()
}

fn upload_args() -> UploadFileArgs {
    UploadFileArgs {
        local_path: "/home/me/a.bin".to_string(),
        remote_path: "/srv/a.bin".to_string(),
        create_dirs: Some(true),
    }
}

fn download_args() -> DownloadFileArgs {
    DownloadFileArgs {
        remote_path: "/srv/remote.bin".to_string(),
        local_path: "/home/me/nested/local.bin".to_string(),
        create_dirs: Some(true),
    }
}

/// A file system with one temporary and one final file.
#[derive(Default)]
struct Disk {
    files: Vec<(String, Vec<u8>)>,
}

impl Disk {
    fn file(&mut self, path: &str) -> &mut Vec<u8> {
        if let Some(i) = self.files.iter().position(|(p, _)| p == path) {
            return &mut self.files[i].1;
        }
        self.files.push((path.to_string(), Vec::new()));
        let last = self.files.len() - 1;
        &mut self.files[last].1
    }

    fn has(&self, path: &str) -> bool {
        self.files.iter().any(|(p, _)| p == path)
    }

    fn remove(&mut self, path: &str) {
        self.files.retain(|(p, _)| p != path);
    }

    fn rename(&mut self, from: &str, to: &str) {
        let bytes = self.file(from).clone();
        self.remove(from);
        *self.file(to) = bytes;
    }
}

#[test]
fn temporary_path_stays_in_the_destination_directory() {
    let path = "/srv/app/report.tar.gz";
    let temporary = temporary_path(path, "upload");
    assert_eq!(parent(&temporary), parent(path));
    let name = file_name(&temporary).unwrap();
    assert!(name.contains("report.tar.gz"), "{name}");
    assert!(name.starts_with('.'), "{name}");
    assert!(name.contains("relayfs-upload-"), "{name}");
}

#[test]
fn each_temporary_path_is_unique() {
    let path = "/srv/app/report.tar.gz";
    let first = temporary_path(path, "upload");
    let second = temporary_path(path, "upload");
    assert_ne!(first, second);
}

#[test]
fn a_numbered_path_is_exact() {
    assert_eq!(
        numbered_path("/srv/app/report.tar.gz", "download", 0xabc),
        "/srv/app/.report.tar.gz.relayfs-download-0000000000000abc"
    );
    assert_eq!(numbered_path("x", "download", 1), ".x.relayfs-download-0000000000000001");
    assert_ne!(numbered_path("/a/b", "t", 1), numbered_path("/a/b", "t", 2));
}

#[test]
fn download_replaces_the_destination_from_a_chunked_source() {
    // 1.5 MiB source read through the real 1 MiB chunk size.
    let payload: Vec<u8> = (0..3 * 512 * 1024u32).map(|i| (i.wrapping_mul(31).wrapping_add(7)) as u8).collect();
    let mut disk = Disk::default();
    let (mut download, mut step) = Download::download_file(&download_args());
    let mut temporary = String::new();
    let mut reads = 0;
    loop {
        let outcome = match step {
            Step::MakeDir { path } => {
                assert_eq!(path, "/home/me/nested");
                Outcome::Done
            }
            Step::CreateLocal { path } => {
                temporary = path.clone();
                disk.file(&path).clear();
                Outcome::Done
            }
            Step::Call { call: RemoteCall::Read { path, offset, limit } } => {
                assert_eq!(path, "/srv/remote.bin");
                assert_eq!(limit, TRANSFER_CHUNK_BYTES as u64);
                reads += 1;
                let from = (offset as usize).min(payload.len());
                let to = (from + limit as usize).min(payload.len());
                Outcome::Chunk(read_of(&payload[from..to], limit))
            }
            Step::AppendLocal { path, bytes } => {
                disk.file(&path).extend_from_slice(&bytes);
                Outcome::Done
            }
            Step::SyncLocal { .. } => Outcome::Done,
            Step::RenameLocal { from, to } => {
                disk.rename(&from, &to);
                Outcome::Done
            }
            Step::Finish { result } => {
                assert_eq!(result.unwrap(), "{\"bytes_downloaded\":1572864}");
                break;
            }
            other => panic!("unexpected {:?}", other),
        };
        assert!(download.fits());
        step = download.next(outcome);
    }
    assert_eq!(reads, 2);
    let written = disk.file("/home/me/nested/local.bin").clone();
    assert_eq!(written.len(), payload.len());
    assert_eq!(written, payload);
    assert!(!disk.has(&temporary), "temporary file survived the replace");
}

#[test]
fn a_failed_download_leaves_nothing() {
    let (mut download, step) = Download::new(&download_args(), 5);
    assert!(matches!(step, Step::MakeDir { .. }));
    let step = download.next(Outcome::Done);
    let temporary = match step {
        Step::CreateLocal { path } => path,
        other => panic!("unexpected {:?}", other),
    };
    assert!(matches!(download.next(Outcome::Done), Step::Call { .. }));
    match download.next(Outcome::Failed("gone".to_string())) {
        Step::RemoveLocal { path } => assert_eq!(path, temporary),
        other => panic!("unexpected {:?}", other),
    }
    match download.next(Outcome::Done) {
        Step::Finish { result } => assert!(result.unwrap_err().contains("gone")),
        other => panic!("unexpected {:?}", other),
    }
}

#[test]
fn a_chunk_that_is_no_base64_fails_the_download() {
    let (mut download, _) = Download::new(&download_args(), 5);
    download.next(Outcome::Done);
    download.next(Outcome::Done);
    let bad = ReadFileResult { data: "%".to_string(), eof: false };
    assert!(matches!(download.next(Outcome::Chunk(bad)), Step::RemoveLocal { .. }));
    match download.next(Outcome::Done) {
        Step::Finish { result } => {
            assert!(result.unwrap_err().starts_with("invalid base64 returned by target: "))
        }
        other => panic!("unexpected {:?}", other),
    }
}

#[test]
fn an_upload_replaces_the_remote_file_at_the_end() {
    let payload: Vec<u8> = (0..2_000_000u32).map(|i| (i % 251) as u8).collect();
    let mut disk = Disk::default();
    *disk.file("/srv/a.bin") = b"old".to_vec();
    let (mut upload, mut step) = Upload::upload_file(&upload_args());
    let mut at = 0usize;
    loop {
        let outcome = match step {
            Step::OpenSource { path } => {
                assert_eq!(path, "/home/me/a.bin");
                Outcome::Done
            }
            Step::ReadSource => {
                let to = (at + TRANSFER_CHUNK_BYTES).min(payload.len());
                let bytes = payload[at..to].to_vec();
                at = to;
                Outcome::Bytes(bytes)
            }
            Step::Call { call } => {
                let (_, params) = call.request();
                assert!(params.is_object());
                match call {
                    RemoteCall::Create { path, create_dirs } => {
                        assert_eq!(create_dirs, Some(true));
                        assert!(path.starts_with("/srv/a.bin.relayfs-upload-"));
                        disk.file(&path).clear();
                    }
                    RemoteCall::WriteAt { path, offset, bytes } => {
                        assert_eq!(disk.file(&path).len() as u64, offset);
                        disk.file(&path).extend_from_slice(&bytes);
                        assert_eq!(disk.file("/srv/a.bin"), b"old");
                    }
                    RemoteCall::Truncate { path, size } => disk.file(&path).truncate(size as usize),
                    RemoteCall::Rename { from, to } => disk.rename(&from, &to),
                    other => panic!("unexpected {:?}", other),
                }
                Outcome::Done
            }
            Step::Finish { result } => {
                assert_eq!(result.unwrap(), "{\"bytes_uploaded\":2000000}");
                break;
            }
            other => panic!("unexpected {:?}", other),
        };
        assert!(upload.room() >= TRANSFER_CHUNK_BYTES as u64);
        step = upload.next(outcome);
    }
    assert_eq!(disk.files.len(), 1);
    assert_eq!(*disk.file("/srv/a.bin"), payload);
}

#[test]
fn a_failed_upload_removes_its_temporary_file() {
    let (mut upload, _) = Upload::new(&upload_args(), 7);
    upload.next(Outcome::Done);
    upload.next(Outcome::Done);
    match upload.next(Outcome::Failed("disk".to_string())) {
        Step::Call { call: RemoteCall::Remove { path } } => {
            assert_eq!(path, "/srv/a.bin.relayfs-upload-0000000000000007")
        }
        other => panic!("unexpected {:?}", other),
    }
    match upload.next(Outcome::Done) {
        Step::Finish { result } => {
            assert_eq!(result.unwrap_err(), "read local source /home/me/a.bin: disk")
        }
        other => panic!("unexpected {:?}", other),
    }
}

#[test]
fn a_failed_rename_removes_the_temporary_file() {
    let (mut upload, _) = Upload::new(&upload_args(), 7);
    upload.next(Outcome::Done);
    upload.next(Outcome::Done);
    assert!(matches!(upload.next(Outcome::Bytes(vec![])), Step::Call { call: RemoteCall::Truncate { size: 0, .. } }));
    assert!(matches!(upload.next(Outcome::Done), Step::Call { call: RemoteCall::Rename { .. } }));
    assert!(matches!(
        upload.next(Outcome::Failed("busy".to_string())),
        Step::Call { call: RemoteCall::Remove { .. } }
    ));
    match upload.next(Outcome::Failed("gone".to_string())) {
        Step::Finish { result } => assert_eq!(result.unwrap_err(), "busy"),
        other => panic!("unexpected {:?}", other),
    }
}

#[test]
fn an_upload_without_a_source_touches_nothing() {
    let (mut upload, _) = Upload::new(&upload_args(), 7);
    match upload.next(Outcome::Failed("no such file".to_string())) {
        Step::Finish { result } => assert!(result.unwrap_err().contains("no such file")),
        other => panic!("unexpected {:?}", other),
    }
}

#[test]
fn calls_carry_their_params() {
    let (name, params) = RemoteCall::WriteAt { path: "/f".to_string(), offset: 3, bytes: b"abc".to_vec() }.request();
    assert_eq!(name, "write_at");
    assert_eq!(params["path"], "/f");
    assert_eq!(params["offset"], 3);
    assert_eq!(params["data"], "YWJj");
    let (name, params) = RemoteCall::Truncate { path: "/f".to_string(), size: 9 }.request();
    assert_eq!((name, params["size"].as_u64()), ("truncate", Some(9)));
    let (name, params) = RemoteCall::Rename { from: "/f".to_string(), to: "/g".to_string() }.request();
    assert_eq!((name, params["to"].as_str()), ("rename", Some("/g")));
    let (name, params) = RemoteCall::Remove { path: "/f".to_string() }.request();
    assert_eq!((name, params["recursive"].as_bool()), ("remove", Some(false)));
    let (name, params) = RemoteCall::Read { path: "/f".to_string(), offset: 1, limit: 2 }.request();
    assert_eq!((name, params["limit"].as_u64()), ("read_file", Some(2)));
    let (name, params) = RemoteCall::Create { path: "/f".to_string(), create_dirs: None }.request();
    assert_eq!(name, "write_file");
    assert_eq!(params["data"], "");
    assert!(params["create_dirs"].is_null());
}
