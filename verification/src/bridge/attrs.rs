//! File attributes and error numbers of a mount.

use vstd::prelude::*;

use crate::bridge::uploads::SendOutcome;
use crate::protocol::{code, FileKind, RpcError, StatResult};
use crate::text::{contains, has_prefix, has_text, lowercase, starts_with, to_lowercase};

verus! {

/// What the kernel is told a path is.
#[derive(Clone, Copy, PartialEq, Eq, Structural, Debug)]
pub enum FileType {
    RegularFile,
    Directory,
    Symlink,
}

/// An error number.
#[derive(Clone, Copy, PartialEq, Eq, Structural, Debug)]
pub enum Errno {
    ENOENT,
    EACCES,
    EEXIST,
    ENOTDIR,
    EISDIR,
    EIO,
    EROFS,
    EINVAL,
    ENOSYS,
}

/// What the kernel is told of a path. The time of access is the present.
#[derive(Clone, Copy, PartialEq, Eq, Structural, Debug)]
pub struct FileAttr {
    pub ino: u64,
    pub size: u64,
    /// Size in blocks of 512 bytes.
    pub blocks: u64,
    /// Last change, in seconds since 1970; the present where it is not known.
    pub modified: Option<u64>,
    pub kind: FileType,
    pub perm: u16,
    pub nlink: u32,
    pub uid: u32,
    pub gid: u32,
    pub blksize: u32,
}

/// What the kernel is told for a kind of the target: what is neither file,
/// directory nor symlink is shown as a file.
pub open spec fn type_of(kind: FileKind) -> FileType {
    match kind {
        FileKind::File => FileType::RegularFile,
        FileKind::Dir => FileType::Directory,
        FileKind::Symlink => FileType::Symlink,
        FileKind::Other => FileType::RegularFile,
    }
}

/// What the kernel is told for a kind of the target.
pub fn file_type(kind: FileKind) -> (res: FileType)
    ensures
        res == type_of(kind),
        res == FileType::Directory <==> kind == FileKind::Dir,
        res == FileType::Symlink <==> kind == FileKind::Symlink,
        res == FileType::RegularFile <==> kind == FileKind::File || kind == FileKind::Other,
{
    match kind {
        FileKind::File => FileType::RegularFile,
        FileKind::Dir => FileType::Directory,
        FileKind::Symlink => FileType::Symlink,
        FileKind::Other => FileType::RegularFile,
    }
}

/// What the kernel is told for an entry of the local cache.
pub open spec fn local_type_of(is_dir: bool, is_symlink: bool) -> FileType {
    if is_dir {
        FileType::Directory
    } else if is_symlink {
        FileType::Symlink
    } else {
        FileType::RegularFile
    }
}

/// What the kernel is told for an entry of the local cache.
pub fn local_type(is_dir: bool, is_symlink: bool) -> (res: FileType)
    ensures
        res == local_type_of(is_dir, is_symlink),
        res == FileType::Directory <==> is_dir,
        res == FileType::Symlink <==> !is_dir && is_symlink,
        res == FileType::RegularFile <==> !is_dir && !is_symlink,
{
    if is_dir {
        FileType::Directory
    } else if is_symlink {
        FileType::Symlink
    } else {
        FileType::RegularFile
    }
}

/// The attributes of a path with the given kind, size, mode and owner.
pub open spec fn attr_of(
    ino: u64,
    kind: FileType,
    size: u64,
    modified: Option<u64>,
    mode: u32,
    uid: u32,
    gid: u32,
) -> FileAttr {
    FileAttr {
        ino,
        size,
        blocks: size / 512,
        modified,
        kind,
        perm: (mode % 4096) as u16,
        nlink: if kind == FileType::Directory {
            2
        } else {
            1
        },
        uid,
        gid,
        blksize: 4096,
    }
}

fn make_attr(
    ino: u64,
    kind: FileType,
    size: u64,
    modified: Option<u64>,
    mode: u32,
    uid: u32,
    gid: u32,
) -> (res: FileAttr)
    ensures
        res == attr_of(ino, kind, size, modified, mode, uid, gid),
        res.ino == ino,
        res.size == size,
        res.blocks * 512 <= size < (res.blocks + 1) * 512,
        res.modified == modified,
        res.kind == kind,
        res.perm == mode & 0o7777,
        kind == FileType::Directory ==> res.nlink == 2,
        kind != FileType::Directory ==> res.nlink == 1,
        res.uid == uid,
        res.gid == gid,
        res.blksize == 4096,
{
    proof {
        lemma_permission_bits(mode);
    }
    let nlink: u32 = match kind {
        FileType::Directory => 2,
        _ => 1,
    };
    FileAttr {
        ino,
        size,
        blocks: size / 512,
        modified,
        kind,
        perm: (mode % 4096) as u16,
        nlink,
        uid,
        gid,
        blksize: 4096,
    }
}

/// The attributes that the target's answer gives.
pub fn attr_from_stat(stat: &StatResult, ino: u64) -> (res: FileAttr)
    ensures
        res == attr_of(
            ino,
            type_of(stat.kind),
            stat.size,
            Some(stat.modified),
            stat.mode,
            stat.uid,
            stat.gid,
        ),
        res.ino == ino,
        res.size == stat.size,
        res.modified == Some(stat.modified),
        res.perm == stat.mode & 0o7777,
        res.uid == stat.uid,
        res.gid == stat.gid,
        res.kind == FileType::Directory <==> stat.kind == FileKind::Dir,
        res.kind == FileType::Symlink <==> stat.kind == FileKind::Symlink,
{
    make_attr(
        ino,
        file_type(stat.kind),
        stat.size,
        Some(stat.modified),
        stat.mode,
        stat.uid,
        stat.gid,
    )
}

/// The attributes that the local cache gives.
pub fn attr_from_metadata(meta: &crate::agent::files::Metadata, ino: u64) -> (res: FileAttr)
    ensures
        res == attr_of(
            ino,
            local_type_of(meta.is_dir, meta.is_symlink),
            meta.size,
            meta.modified,
            meta.mode,
            meta.uid,
            meta.gid,
        ),
        res.ino == ino,
        res.size == meta.size,
        res.modified == meta.modified,
        res.perm == meta.mode & 0o7777,
        res.uid == meta.uid,
        res.gid == meta.gid,
        res.kind == FileType::Directory <==> meta.is_dir,
        res.kind == FileType::Symlink <==> !meta.is_dir && meta.is_symlink,
{
    make_attr(
        ino,
        local_type(meta.is_dir, meta.is_symlink),
        meta.size,
        meta.modified,
        meta.mode,
        meta.uid,
        meta.gid,
    )
}

/// The permission bits are the low twelve of the mode.
pub proof fn lemma_permission_bits(mode: u32)
    ensures
        mode % 4096 == mode & 0o7777,
{
    assert(mode % 4096 == mode & 0o7777) by (bit_vector);
}

/// The error number for a message, by what it says in lower case.
pub open spec fn errno_of(message: Seq<char>) -> Errno {
    errno_in(lowercase(message))
}

/// The error number for a failed call.
pub fn errno_for(e: &RpcError) -> (res: Errno)
    ensures
        res == errno_of(e.message@),
        res == Errno::ENOENT <==> has_text(lowercase(e.message@), "no such file"@) || has_text(
            lowercase(e.message@),
            "not found"@,
        ),
        res == errno_in(lowercase(e.message@)),
{
    errno_for_text(to_lowercase(e.message.as_str()).as_str())
}

/// The error number for a message in lower case.
pub open spec fn errno_in(m: Seq<char>) -> Errno {
    if has_text(m, "no such file"@) || has_text(m, "not found"@) {
        Errno::ENOENT
    } else if has_text(m, "permission"@) || has_text(m, "denied"@) {
        Errno::EACCES
    } else if has_text(m, "exists"@) {
        Errno::EEXIST
    } else if has_text(m, "not a directory"@) {
        Errno::ENOTDIR
    } else if has_text(m, "is a directory"@) {
        Errno::EISDIR
    } else {
        Errno::EIO
    }
}

/// The error number for a message in lower case.
pub fn errno_for_text(m: &str) -> (res: Errno)
    ensures
        res == errno_in(m@),
        ({
            let gone = has_text(m@, "no such file"@) || has_text(m@, "not found"@);
            let refused = has_text(m@, "permission"@) || has_text(m@, "denied"@);
            let there = has_text(m@, "exists"@);
            &&& res == Errno::ENOENT <==> gone
            &&& res == Errno::EACCES <==> !gone && refused
            &&& res == Errno::EEXIST <==> !gone && !refused && there
            &&& !gone && !refused && !there && has_text(m@, "not a directory"@) ==> res
                == Errno::ENOTDIR
            &&& !gone && !refused && !there && !has_text(m@, "not a directory"@) && has_text(
                m@,
                "is a directory"@,
            ) ==> res == Errno::EISDIR
            &&& !gone && !refused && !there && !has_text(m@, "not a directory"@) && !has_text(
                m@,
                "is a directory"@,
            ) ==> res == Errno::EIO
        }),
{
    if contains(m, "no such file") || contains(m, "not found") {
        Errno::ENOENT
    } else if contains(m, "permission") || contains(m, "denied") {
        Errno::EACCES
    } else if contains(m, "exists") {
        Errno::EEXIST
    } else if contains(m, "not a directory") {
        Errno::ENOTDIR
    } else if contains(m, "is a directory") {
        Errno::EISDIR
    } else {
        Errno::EIO
    }
}

/// A message in lower case names a permanent failure.
pub open spec fn is_permanent(m: Seq<char>) -> bool {
    has_text(m, "no such file"@) || has_text(m, "not found"@) || has_text(m, "permission"@)
        || has_text(m, "denied"@)
}

/// Whether a message in lower case names a permanent failure.
pub fn permanent(m: &str) -> (res: bool)
    ensures
        res == is_permanent(m@),
        res <==> has_text(m@, "no such file"@) || has_text(m@, "not found"@) || has_text(
            m@,
            "permission"@,
        ) || has_text(m@, "denied"@),
{
    contains(m, "no such file") || contains(m, "not found") || contains(m, "permission")
        || contains(m, "denied")
}

/// Permanent target-side failures must not be retried forever; connection
/// failures must be.
pub fn send_fatal(e: &RpcError) -> (res: bool)
    ensures
        res == (e.code == code::METHOD_NOT_FOUND || is_permanent(lowercase(e.message@))),
        res <==> e.code == -32601 || has_text(lowercase(e.message@), "no such file"@) || has_text(
            lowercase(e.message@),
            "not found"@,
        ) || has_text(lowercase(e.message@), "permission"@) || has_text(
            lowercase(e.message@),
            "denied"@,
        ),
{
    if e.code == code::METHOD_NOT_FOUND {
        return true;
    }
    permanent(to_lowercase(e.message.as_str()).as_str())
}

/// A call that failed with this code and message did not reach the target, or
/// its answer did not come back: the target is offline, it did not answer in
/// time, or a text could not be sent on the way.
pub open spec fn is_unreachable(error_code: i64, message: Seq<char>) -> bool {
    ||| error_code == code::AGENT_OFFLINE
    ||| error_code == code::CANCELLED
    ||| error_code == code::INTERNAL_ERROR && (has_prefix(message, "send failed: "@)
        || has_prefix(message, "agent forward failed: "@))
}

/// Whether the target was out of reach, where a call failed.
pub fn out_of_reach(e: &RpcError) -> (res: bool)
    ensures
        res == is_unreachable(e.code, e.message@),
        res <==> e.code == -32000 || e.code == -32001 || e.code == -32603 && (has_prefix(
            e.message@,
            "send failed: "@,
        ) || has_prefix(e.message@, "agent forward failed: "@)),
{
    e.code == code::AGENT_OFFLINE || e.code == code::CANCELLED || (e.code == code::INTERNAL_ERROR
        && (starts_with(e.message.as_str(), "send failed: ") || starts_with(
        e.message.as_str(),
        "agent forward failed: ",
    )))
}

/// A call is out of reach where it was lost with the connection, was not
/// answered in time, or could not be sent on by the bridge or by the relay.
pub proof fn lemma_lost_calls_are_out_of_reach(e: RpcError, reason: Seq<char>)
    requires
        e.code == code::AGENT_OFFLINE || e.code == code::CANCELLED || (e.code
            == code::INTERNAL_ERROR && (e.message@ == "send failed: "@ + reason || e.message@
            == "agent forward failed: "@ + reason)),
    ensures
        is_unreachable(e.code, e.message@),
{
    let m = e.message@;
    if m == "send failed: "@ + reason {
        assert(m.subrange(0, "send failed: "@.len() as int) =~= "send failed: "@);
    }
    if m == "agent forward failed: "@ + reason {
        assert(m.subrange(0, "agent forward failed: "@.len() as int)
            =~= "agent forward failed: "@);
    }
}

/// How a send ended, by the target's answer. `read` says whether the local
/// cache still held all bytes: a missing or short cache file means that the
/// local write failed or a truncation came in between, and is tried again.
pub fn send_outcome(read: bool, answer: Option<&RpcError>) -> (res: SendOutcome)
    ensures
        res == (if !read {
            SendOutcome::Retry
        } else {
            match answer {
                None => SendOutcome::Sent,
                Some(e) => if e.code == code::METHOD_NOT_FOUND || is_permanent(
                    lowercase(e.message@),
                ) {
                    SendOutcome::Drop
                } else {
                    SendOutcome::Retry
                },
            }
        }),
        res == SendOutcome::Sent <==> read && answer is None,
        res == SendOutcome::Drop <==> read && answer is Some && (answer->0.code == -32601
            || has_text(lowercase(answer->0.message@), "no such file"@) || has_text(
            lowercase(answer->0.message@),
            "not found"@,
        ) || has_text(lowercase(answer->0.message@), "permission"@) || has_text(
            lowercase(answer->0.message@),
            "denied"@,
        )),
{
    if !read {
        return SendOutcome::Retry;
    }
    match answer {
        None => SendOutcome::Sent,
        Some(e) => if send_fatal(e) {
            SendOutcome::Drop
        } else {
            SendOutcome::Retry
        },
    }
}

} // verus!
