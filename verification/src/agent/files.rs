//! File system operations served by the agent: what is asked of the file
//! system, and what is answered.

use vstd::prelude::*;

use crate::encoding::{
    base64_bytes, base64_decode, base64_encode, base64_text, decodes_to, is_decoded,
};
use crate::json::{json_view, new_object, of_text, of_u64, put, unsigned, JsonView};
use crate::path::{join_path, joined_path};
use crate::protocol::{
    notify, CopyParams, DirEntry, FileKind, ListDirResult, MkdirParams, ReadFileParams,
    ReadFileResult, RemoveParams, StatResult, WriteFileParams, WriteFileResult,
};
use crate::rpc::{notification_frame, notification_value};
use crate::text::{
    comes_before, lemma_order_irreflexive, lemma_order_total, lemma_order_transitive, opt_text,
    text_before,
};

verus! {

/// Bytes read where no limit is given.
pub const DEFAULT_LIMIT: u64 = 1024 * 1024;

/// Bytes read at a time while a file is streamed.
pub const STREAM_CHUNK_BYTES: usize = 256 * 1024;

/// What stands before the reason why bytes could not be decoded.
pub const INVALID_BASE64: &'static str = "invalid base64: ";

// ---------------------------------------------------------------------------
// Failures
// ---------------------------------------------------------------------------

/// What could not be done to which path, and why.
pub fn failure(what: &str, path: &str, error: &str) -> (res: String)
    ensures
        res@ == what@ + " "@ + path@ + ": "@ + error@,
{
    let mut message = what.to_owned();
    message.append(" ");
    message.append(path);
    message.append(": ");
    message.append(error);
    message
}

/// What could not be done from one path to another, and why.
pub fn failure_between(what: &str, from: &str, to: &str, error: &str) -> (res: String)
    ensures
        res@ == what@ + " "@ + from@ + " -> "@ + to@ + ": "@ + error@,
{
    let mut message = what.to_owned();
    message.append(" ");
    message.append(from);
    message.append(" -> ");
    message.append(to);
    message.append(": ");
    message.append(error);
    message
}

// ---------------------------------------------------------------------------
// Contents
// ---------------------------------------------------------------------------

/// Which bytes of a file are asked for: from where on, and how many at most.
pub fn read_file(params: &ReadFileParams) -> (res: (u64, u64))
    ensures
        res.0 == match params.offset {
            Some(offset) => offset,
            None => 0,
        },
        res.1 == match params.limit {
            Some(limit) => limit,
            None => DEFAULT_LIMIT,
        },
        params.limit is None ==> res.1 == 1024 * 1024,
{
    let offset = match params.offset {
        Some(offset) => offset,
        None => 0,
    };
    let limit = match params.limit {
        Some(limit) => limit,
        None => DEFAULT_LIMIT,
    };
    (offset, limit)
}

/// A file that is being read. One read may give fewer bytes than were asked for,
/// so reads are collected until there are enough, or one is empty: that is the
/// end of the file.
#[derive(Debug)]
pub struct FileRead {
    limit: u64,
    bytes: Vec<u8>,
    ended: bool,
}

/// A file that is being read, as a mathematical value.
#[verifier::ext_equal]
pub struct FileReadView {
    pub limit: u64,
    /// What has been read.
    pub bytes: Seq<u8>,
    /// The last read was empty.
    pub ended: bool,
}

impl View for FileRead {
    type V = FileReadView;

    closed spec fn view(&self) -> FileReadView {
        FileReadView { limit: self.limit, bytes: self.bytes@, ended: self.ended }
    }
}

impl FileReadView {
    /// Nothing has been read.
    pub open spec fn start(limit: u64) -> FileReadView {
        FileReadView { limit, bytes: Seq::empty(), ended: false }
    }

    /// What always holds: there are no more bytes than were asked for.
    pub open spec fn inv(self) -> bool {
        self.bytes.len() <= self.limit
    }

    /// How many bytes are still asked for.
    pub open spec fn wanted(self) -> int {
        if self.ended {
            0
        } else {
            self.limit - self.bytes.len()
        }
    }

    /// One more read.
    pub open spec fn after(self, read: Seq<u8>) -> FileReadView {
        FileReadView { bytes: self.bytes + read, ended: read.len() == 0, ..self }
    }

    /// One read after the other.
    pub open spec fn after_all(self, reads: Seq<Seq<u8>>) -> FileReadView
        decreases reads.len(),
    {
        if reads.len() == 0 {
            self
        } else {
            self.after_all(reads.drop_last()).after(reads.last())
        }
    }
}

impl FileRead {
    /// Nothing has been read of the `limit` bytes that are asked for.
    pub fn new(limit: u64) -> (res: Self)
        ensures
            res@.inv(),
            res@ == FileReadView::start(limit),
    {
        let res = FileRead { limit, bytes: Vec::new(), ended: false };
        assert(res@ =~= FileReadView::start(limit));
        res
    }

    /// How many bytes the next read may give; with none there is no next read.
    pub fn wanted(&self) -> (res: u64)
        requires
            self@.inv(),
        ensures
            res == self@.wanted(),
            self@.ended ==> res == 0,
            !self@.ended ==> res + self@.bytes.len() == self@.limit,
    {
        if self.ended {
            0
        } else {
            self.limit - self.bytes.len() as u64
        }
    }

    /// A read has given `read`.
    pub fn collect(&mut self, read: &[u8])
        requires
            old(self)@.inv(),
            old(self)@.wanted() > 0,
            read@.len() <= old(self)@.wanted(),
        ensures
            final(self)@.inv(),
            final(self)@ == old(self)@.after(read@),
            final(self)@.limit == old(self)@.limit,
            final(self)@.bytes == old(self)@.bytes + read@,
            final(self)@.ended <==> read@.len() == 0,
    {
        let ghost before = self@;
        let n: usize = read.len();
        self.ended = n == 0;
        self.bytes.extend_from_slice(read);
        assert(self@ =~= before.after(read@));
    }

    /// The answer, once no more is wanted: it says that the file has ended where
    /// there are fewer bytes than were asked for, and then the last read was
    /// empty.
    pub fn result(&self) -> (res: ReadFileResult)
        requires
            self@.inv(),
            self@.wanted() == 0,
        ensures
            res.data@ == base64_text(self@.bytes),
            decodes_to(res.data@, self@.bytes),
            res.eof == (self@.bytes.len() < self@.limit),
            res.eof ==> self@.ended,
    {
        let n: usize = self.bytes.len();
        ReadFileResult { data: base64_encode(self.bytes.as_slice()), eof: (n as u64) < self.limit }
    }
}

/// Reading a file at `at`, where `most` bytes are asked for, gives `read`: bytes
/// of the file, and none only at its end.
pub open spec fn is_read_of(file: Seq<u8>, at: int, most: int, read: Seq<u8>) -> bool {
    &&& read.len() <= most
    &&& read.len() == 0 ==> at >= file.len()
    &&& read.len() > 0 ==> at + read.len() <= file.len() && read == file.subrange(
        at,
        at + read.len(),
    )
}

/// The reads, one after the other, are reads of the file from `offset` on, and
/// each was wanted.
pub open spec fn are_reads_of(
    file: Seq<u8>,
    offset: int,
    limit: u64,
    reads: Seq<Seq<u8>>,
) -> bool
    decreases reads.len(),
{
    if reads.len() == 0 {
        true
    } else {
        let before = FileReadView::start(limit).after_all(reads.drop_last());
        &&& are_reads_of(file, offset, limit, reads.drop_last())
        &&& before.wanted() > 0
        &&& is_read_of(file, offset + before.bytes.len(), before.wanted(), reads.last())
    }
}

/// Fewer bytes than were asked for are returned only at the end of the file:
/// what was collected are the bytes of the file at the offset, at most as many
/// as were asked for, and where there are fewer the file has no more.
pub proof fn lemma_short_read_ends_the_file(
    file: Seq<u8>,
    offset: int,
    limit: u64,
    reads: Seq<Seq<u8>>,
)
    requires
        0 <= offset,
        are_reads_of(file, offset, limit, reads),
    ensures
        ({
            let read = FileReadView::start(limit).after_all(reads);
            let n = read.bytes.len();
            &&& read.inv()
            &&& read.limit == limit
            &&& n > 0 ==> offset + n <= file.len() && read.bytes == file.subrange(
                offset,
                offset + n,
            )
            &&& read.ended ==> offset + n >= file.len()
            &&& read.wanted() == 0 && n < limit ==> offset + n >= file.len()
        }),
    decreases reads.len(),
{
    if reads.len() > 0 {
        lemma_short_read_ends_the_file(file, offset, limit, reads.drop_last());
        let before = FileReadView::start(limit).after_all(reads.drop_last());
        let read = reads.last();
        let after = before.after(read);
        if read.len() > 0 {
            assert(after.bytes =~= file.subrange(offset, offset + after.bytes.len()));
        } else {
            assert(after.bytes =~= before.bytes);
        }
    }
}

/// Whether missing parent directories are to be created before a write.
pub fn creates_dirs(params: &WriteFileParams) -> (res: bool)
    ensures
        res == (params.create_dirs == Some(true)),
{
    match params.create_dirs {
        Some(create) => create,
        None => false,
    }
}

/// The bytes to write to a file.
pub fn write_file(params: &WriteFileParams) -> (res: Result<Vec<u8>, String>)
    ensures
        is_decoded(params.data@, INVALID_BASE64@, res),
        res is Ok ==> decodes_to(params.data@, res->Ok_0@),
        res is Err ==> base64_bytes(params.data@) is Err && res->Err_0@ == "invalid base64: "@
            + base64_bytes(params.data@)->Err_0,
{
    base64_decode(params.data.as_str(), INVALID_BASE64)
}

/// The bytes to write into a file at an offset.
pub fn write_at(params: &crate::protocol::WriteAtParams) -> (res: Result<Vec<u8>, String>)
    ensures
        is_decoded(params.data@, INVALID_BASE64@, res),
        res is Ok ==> decodes_to(params.data@, res->Ok_0@),
        res is Err ==> base64_bytes(params.data@) is Err && res->Err_0@ == "invalid base64: "@
            + base64_bytes(params.data@)->Err_0,
{
    base64_decode(params.data.as_str(), INVALID_BASE64)
}

/// The answer to a write of `bytes`.
pub fn write_result(bytes: &[u8]) -> (res: WriteFileResult)
    ensures
        res.bytes_written == bytes@.len(),
{
    let n: usize = bytes.len();
    WriteFileResult { bytes_written: n as u64 }
}

/// What is written is read back: reading as many bytes as a file holds answers
/// with a text that a write of the same text turns into the same bytes.
pub proof fn lemma_read_gives_back_what_was_written(
    bytes: Seq<u8>,
    answer: ReadFileResult,
    decoded: Result<Vec<u8>, String>,
)
    requires
        decodes_to(answer.data@, bytes),
        is_decoded(answer.data@, INVALID_BASE64@, decoded),
    ensures
        decoded is Ok,
        decoded->Ok_0@ == bytes,
{
}

// ---------------------------------------------------------------------------
// Streaming
// ---------------------------------------------------------------------------

/// A piece of a streamed file.
pub open spec fn stream_chunk_frame(id: u64, data: Seq<char>) -> JsonView {
    notification_frame(
        notify::STREAM_CHUNK@,
        JsonView::Object(
            Map::<Seq<char>, JsonView>::empty().insert("id"@, unsigned(id)).insert(
                "data"@,
                JsonView::Text(data),
            ),
        ),
    )
}

/// The end of a streamed file.
pub open spec fn stream_end_frame(id: u64, total: u64) -> JsonView {
    notification_frame(
        notify::STREAM_END@,
        JsonView::Object(
            Map::<Seq<char>, JsonView>::empty().insert("id"@, unsigned(id)).insert(
                "total"@,
                unsigned(total),
            ),
        ),
    )
}

/// A file that is being streamed.
#[derive(Debug)]
pub struct FileStream {
    pub id: u64,
    /// Bytes sent so far.
    pub total: u64,
}

impl FileStream {
    /// Nothing has been sent for the request `id`.
    pub fn new(id: u64) -> (res: Self)
        ensures
            res.id == id,
            res.total == 0,
    {
        FileStream { id, total: 0 }
    }

    /// A read has given `bytes`: the notification to send, and whether the
    /// stream has ended with it.
    pub fn stream_file(&mut self, bytes: &[u8]) -> (res: (serde_json::Value, bool))
        requires
            old(self).total + bytes@.len() <= u64::MAX,
        ensures
            final(self).id == old(self).id,
            final(self).total == old(self).total + bytes@.len(),
            res.1 == (bytes@.len() == 0),
            json_view(res.0) == if bytes@.len() == 0 {
                stream_end_frame(old(self).id, old(self).total)
            } else {
                stream_chunk_frame(old(self).id, base64_text(bytes@))
            },
            bytes@.len() > 0 ==> json_view(res.0) == JsonView::Object(
                map![
                    "jsonrpc"@ => JsonView::Text("2.0"@),
                    "method"@ => JsonView::Text("stream_chunk"@),
                    "params"@ => JsonView::Object(
                        map![
                            "id"@ => unsigned(old(self).id),
                            "data"@ => JsonView::Text(base64_text(bytes@)),
                        ],
                    ),
                ],
            ),
            bytes@.len() == 0 ==> json_view(res.0) == JsonView::Object(
                map![
                    "jsonrpc"@ => JsonView::Text("2.0"@),
                    "method"@ => JsonView::Text("stream_end"@),
                    "params"@ => JsonView::Object(
                        map!["id"@ => unsigned(old(self).id), "total"@ => unsigned(old(self).total)],
                    ),
                ],
            ),
    {
        let n: usize = bytes.len();
        let mut params = new_object();
        put(&mut params, "id", of_u64(self.id));
        if n == 0 {
            put(&mut params, "total", of_u64(self.total));
            return (notification_value(notify::STREAM_END, params), true);
        }
        self.total = self.total + n as u64;
        put(&mut params, "data", of_text(base64_encode(bytes).as_str()));
        (notification_value(notify::STREAM_CHUNK, params), false)
    }
}

/// A read answers with the bytes that were asked for: once no more is wanted of
/// the reads of a file from `offset` on, what was collected is the file from there
/// to its end, or the first `limit` bytes of that.
pub proof fn lemma_read_is_the_part_asked_for(
    file: Seq<u8>,
    offset: int,
    limit: u64,
    reads: Seq<Seq<u8>>,
)
    requires
        0 <= offset,
        are_reads_of(file, offset, limit, reads),
        FileReadView::start(limit).after_all(reads).wanted() == 0,
    ensures
        ({
            let bytes = FileReadView::start(limit).after_all(reads).bytes;
            &&& offset + limit <= file.len() ==> bytes == file.subrange(offset, offset + limit)
            &&& offset <= file.len() < offset + limit ==> bytes == file.subrange(
                offset,
                file.len() as int,
            )
            &&& offset > file.len() ==> bytes.len() == 0
        }),
{
    lemma_short_read_ends_the_file(file, offset, limit, reads);
    let bytes = FileReadView::start(limit).after_all(reads).bytes;
    if bytes.len() == 0 {
        if offset + limit <= file.len() {
            assert(bytes =~= file.subrange(offset, offset + limit));
        } else if offset <= file.len() {
            assert(bytes =~= file.subrange(offset, file.len() as int));
        }
    }
}

// ---------------------------------------------------------------------------
// Metadata
// ---------------------------------------------------------------------------

/// What a path is.
pub open spec fn kind_of(is_dir: bool, is_file: bool, is_symlink: bool) -> FileKind {
    if is_dir {
        FileKind::Dir
    } else if is_file {
        FileKind::File
    } else if is_symlink {
        FileKind::Symlink
    } else {
        FileKind::Other
    }
}

/// What a path is.
pub fn file_kind(is_dir: bool, is_file: bool, is_symlink: bool) -> (res: FileKind)
    ensures
        res == kind_of(is_dir, is_file, is_symlink),
        res == FileKind::Dir <==> is_dir,
        res == FileKind::File <==> !is_dir && is_file,
        res == FileKind::Symlink <==> !is_dir && !is_file && is_symlink,
        res == FileKind::Other <==> !is_dir && !is_file && !is_symlink,
{
    if is_dir {
        FileKind::Dir
    } else if is_file {
        FileKind::File
    } else if is_symlink {
        FileKind::Symlink
    } else {
        FileKind::Other
    }
}

/// What the file system says of a path. `modified` is in seconds since 1970,
/// where it is known and not before that.
#[derive(Debug)]
pub struct Metadata {
    pub is_dir: bool,
    pub is_file: bool,
    pub is_symlink: bool,
    pub size: u64,
    pub modified: Option<u64>,
    pub mode: u32,
    pub uid: u32,
    pub gid: u32,
}

/// The time of the last change; 0 where it is not known.
pub open spec fn modified_secs(m: Metadata) -> u64 {
    match m.modified {
        Some(secs) => secs,
        None => 0,
    }
}

/// The entry of a directory.
pub fn dir_entry(name: String, m: &Metadata) -> (res: DirEntry)
    ensures
        res.name == name,
        res.kind == kind_of(m.is_dir, m.is_file, m.is_symlink),
        res.size == m.size,
        res.modified == modified_secs(*m),
        m.modified is Some ==> res.modified == m.modified->0,
        m.modified is None ==> res.modified == 0,
        res.kind == FileKind::Dir <==> m.is_dir,
        res.kind == FileKind::File <==> !m.is_dir && m.is_file,
        res.kind == FileKind::Symlink <==> !m.is_dir && !m.is_file && m.is_symlink,
{
    DirEntry {
        name,
        kind: file_kind(m.is_dir, m.is_file, m.is_symlink),
        size: m.size,
        modified: match m.modified {
            Some(secs) => secs,
            None => 0,
        },
    }
}

/// The answer to a stat. `link` is where the path points to, if that could be
/// read; it is reported of a symlink only.
pub fn stat(m: &Metadata, link: Option<String>) -> (res: StatResult)
    ensures
        res.kind == kind_of(m.is_dir, m.is_file, m.is_symlink),
        res.size == m.size,
        res.modified == modified_secs(*m),
        res.mode == m.mode,
        res.uid == m.uid,
        res.gid == m.gid,
        opt_text(res.link_target) == if res.kind == FileKind::Symlink {
            opt_text(link)
        } else {
            None
        },
        m.modified is Some ==> res.modified == m.modified->0,
        m.modified is None ==> res.modified == 0,
        res.kind == FileKind::Dir <==> m.is_dir,
        res.kind == FileKind::File <==> !m.is_dir && m.is_file,
        res.kind == FileKind::Symlink <==> !m.is_dir && !m.is_file && m.is_symlink,
{
    let kind = file_kind(m.is_dir, m.is_file, m.is_symlink);
    let link_target = match kind {
        FileKind::Symlink => link,
        _ => None,
    };
    StatResult {
        kind,
        size: m.size,
        modified: match m.modified {
            Some(secs) => secs,
            None => 0,
        },
        mode: m.mode,
        uid: m.uid,
        gid: m.gid,
        link_target,
    }
}

// ---------------------------------------------------------------------------
// Listing
// ---------------------------------------------------------------------------

/// Where an entry belongs: behind all whose name comes before its own.
pub open spec fn place(sorted: Seq<DirEntry>, name: Seq<char>) -> int
    decreases sorted.len(),
{
    if sorted.len() == 0 || comes_before(sorted.last().name@, name) {
        sorted.len() as int
    } else {
        place(sorted.drop_last(), name)
    }
}

/// The entries by name; entries with the same name keep their order.
pub open spec fn by_name(entries: Seq<DirEntry>) -> Seq<DirEntry>
    decreases entries.len(),
{
    if entries.len() == 0 {
        entries
    } else {
        let rest = by_name(entries.drop_first());
        rest.insert(place(rest, entries[0].name@), entries[0])
    }
}

/// No name comes before one that stands earlier.
pub open spec fn is_sorted(entries: Seq<DirEntry>) -> bool {
    forall|i: int, j: int|
        0 <= i < j < entries.len() ==> !comes_before(
            (#[trigger] entries[j]).name@,
            (#[trigger] entries[i]).name@,
        )
}

/// A place lies within the list.
proof fn lemma_place_bounds(sorted: Seq<DirEntry>, name: Seq<char>)
    ensures
        0 <= place(sorted, name) <= sorted.len(),
    decreases sorted.len(),
{
    if sorted.len() > 0 && !comes_before(sorted.last().name@, name) {
        lemma_place_bounds(sorted.drop_last(), name);
    }
}

/// In a sorted list a place is where the names stop coming before.
proof fn lemma_place_is(sorted: Seq<DirEntry>, name: Seq<char>, at: int)
    requires
        0 <= at <= sorted.len(),
        at > 0 ==> comes_before(sorted[at - 1].name@, name),
        forall|k: int|
            at <= k < sorted.len() ==> !comes_before((#[trigger] sorted[k]).name@, name),
    ensures
        place(sorted, name) == at,
    decreases sorted.len(),
{
    if sorted.len() > 0 {
        if at < sorted.len() {
            assert(!comes_before(sorted[sorted.len() - 1].name@, name));
            let front = sorted.drop_last();
            assert forall|k: int| at <= k < front.len() implies !comes_before(
                (#[trigger] front[k]).name@,
                name,
            ) by {
                assert(front[k] == sorted[k]);
            }
            lemma_place_is(front, name, at);
        }
    }
}

/// What a place in a sorted list separates.
proof fn lemma_place_separates(sorted: Seq<DirEntry>, name: Seq<char>)
    requires
        is_sorted(sorted),
    ensures
        forall|k: int|
            0 <= k < place(sorted, name) ==> comes_before((#[trigger] sorted[k]).name@, name),
        forall|k: int|
            place(sorted, name) <= k < sorted.len() ==> !comes_before(
                (#[trigger] sorted[k]).name@,
                name,
            ),
    decreases sorted.len(),
{
    lemma_place_bounds(sorted, name);
    if sorted.len() > 0 {
        let front = sorted.drop_last();
        if comes_before(sorted.last().name@, name) {
            assert forall|k: int| 0 <= k < sorted.len() implies comes_before(
                (#[trigger] sorted[k]).name@,
                name,
            ) by {
                let last = sorted[sorted.len() - 1].name@;
                let this = sorted[k].name@;
                if k < sorted.len() - 1 {
                    assert(!comes_before(last, this));
                    lemma_order_total(this, last);
                    if this != last {
                        lemma_order_transitive(this, last, name);
                    }
                }
            }
        } else {
            assert forall|i: int, j: int| 0 <= i < j < front.len() implies !comes_before(
                (#[trigger] front[j]).name@,
                (#[trigger] front[i]).name@,
            ) by {
                assert(front[i] == sorted[i] && front[j] == sorted[j]);
            }
            lemma_place_separates(front, name);
            lemma_place_bounds(front, name);
            assert forall|k: int| 0 <= k < place(sorted, name) implies comes_before(
                (#[trigger] sorted[k]).name@,
                name,
            ) by {
                assert(front[k] == sorted[k]);
            }
            assert forall|k: int| place(sorted, name) <= k < sorted.len() implies !comes_before(
                (#[trigger] sorted[k]).name@,
                name,
            ) by {
                if k < front.len() {
                    assert(front[k] == sorted[k]);
                }
            }
        }
    }
}

/// An entry put at its place keeps the list sorted.
proof fn lemma_insert_keeps_sorted(sorted: Seq<DirEntry>, e: DirEntry)
    requires
        is_sorted(sorted),
    ensures
        is_sorted(sorted.insert(place(sorted, e.name@), e)),
{
    lemma_place_bounds(sorted, e.name@);
    lemma_place_separates(sorted, e.name@);
    let at = place(sorted, e.name@);
    let out = sorted.insert(at, e);
    assert forall|i: int, j: int| 0 <= i < j < out.len() implies !comes_before(
        (#[trigger] out[j]).name@,
        (#[trigger] out[i]).name@,
    ) by {
        if j == at {
            assert(out[i] == sorted[i]);
            lemma_order_irreflexive(e.name@);
            if comes_before(e.name@, sorted[i].name@) {
                lemma_order_transitive(e.name@, sorted[i].name@, e.name@);
            }
        } else if i == at {
            assert(out[j] == sorted[j - 1]);
        } else {
            let a = if i < at {
                i
            } else {
                i - 1
            };
            let b = if j < at {
                j
            } else {
                j - 1
            };
            assert(out[i] == sorted[a] && out[j] == sorted[b]);
        }
    }
}

/// A listing is sorted by name and holds the entries it was made of, each as
/// often as before.
pub proof fn lemma_listing_is_sorted(entries: Seq<DirEntry>)
    ensures
        is_sorted(by_name(entries)),
        by_name(entries).to_multiset() == entries.to_multiset(),
        by_name(entries).len() == entries.len(),
    decreases entries.len(),
{
    if entries.len() > 0 {
        let rest = by_name(entries.drop_first());
        lemma_listing_is_sorted(entries.drop_first());
        lemma_insert_keeps_sorted(rest, entries[0]);
        lemma_place_bounds(rest, entries[0].name@);
        broadcast use vstd::seq_lib::group_to_multiset_ensures;

        assert(entries =~= entries.drop_first().insert(0, entries[0]));
        assert(by_name(entries).to_multiset() =~= rest.to_multiset().insert(entries[0]));
        assert(entries.to_multiset() =~= entries.drop_first().to_multiset().insert(entries[0]));
    }
}

/// The answer to a listing: the entries by name.
pub fn list_dir(entries: Vec<DirEntry>) -> (res: ListDirResult)
    ensures
        res.entries@ == by_name(entries@),
        res.entries@.to_multiset() == entries@.to_multiset(),
        forall|i: int, j: int|
            0 <= i < j < res.entries@.len() ==> !comes_before(
                (#[trigger] res.entries@[j]).name@,
                (#[trigger] res.entries@[i]).name@,
            ),
{
    let ghost all = entries@;
    let mut given = entries;
    let mut out: Vec<DirEntry> = Vec::new();
    assert(all.skip(all.len() as int) =~= Seq::<DirEntry>::empty());
    assert(given@ =~= all.take(given@.len() as int));
    while given.len() > 0
        invariant
            given@.len() <= all.len(),
            given@ == all.take(given@.len() as int),
            out@ == by_name(all.skip(given@.len() as int)),
        decreases given@.len(),
    {
        let ghost n: int = given@.len() as int;
        let e = given.pop().unwrap();
        proof {
            lemma_listing_is_sorted(all.skip(n));
            let tail = all.skip(n - 1);
            assert(tail.drop_first() =~= all.skip(n));
            assert(tail[0] == e);
            assert(given@ =~= all.take(n - 1));
        }
        let at = find_place(&out, e.name.as_str());
        out.insert(at, e);
    }
    assert(all.skip(0) =~= all);
    proof {
        lemma_listing_is_sorted(all);
    }
    ListDirResult { entries: out }
}

/// Where an entry belongs in a sorted list.
fn find_place(sorted: &Vec<DirEntry>, name: &str) -> (res: usize)
    requires
        is_sorted(sorted@),
    ensures
        res == place(sorted@, name@),
        res <= sorted@.len(),
{
    let mut low: usize = 0;
    let mut high: usize = sorted.len();
    proof {
        lemma_place_separates(sorted@, name@);
        lemma_place_bounds(sorted@, name@);
    }
    while low < high
        invariant
            low <= high <= sorted@.len(),
            low <= place(sorted@, name@) <= high,
            forall|k: int|
                0 <= k < place(sorted@, name@) ==> comes_before(
                    (#[trigger] sorted@[k]).name@,
                    name@,
                ),
            forall|k: int|
                place(sorted@, name@) <= k < sorted@.len() ==> !comes_before(
                    (#[trigger] sorted@[k]).name@,
                    name@,
                ),
        decreases high - low,
    {
        let mid: usize = low + (high - low) / 2;
        assert(sorted@[mid as int].name@ == sorted@[mid as int].name@);
        if text_before(sorted[mid].name.as_str(), name) {
            low = mid + 1;
        } else {
            high = mid;
        }
    }
    low
}

// ---------------------------------------------------------------------------
// Changes
// ---------------------------------------------------------------------------

/// The permission bits of a new directory.
pub fn mkdir(params: &MkdirParams) -> (res: u32)
    ensures
        res == match params.mode {
            Some(mode) => mode,
            None => 0o755,
        },
{
    match params.mode {
        Some(mode) => mode,
        None => 0o755,
    }
}

/// How a path is removed.
#[derive(Clone, Copy, PartialEq, Eq, Structural, Debug)]
pub enum Removal {
    /// With everything below it.
    Tree,
    /// A directory, which must be empty.
    Directory,
    File,
}

/// How a path is removed; what it is need not be known for a tree.
pub fn remove(params: &RemoveParams, is_dir: bool) -> (res: Removal)
    ensures
        res == (if params.recursive == Some(true) {
            Removal::Tree
        } else if is_dir {
            Removal::Directory
        } else {
            Removal::File
        }),
{
    let recursive = match params.recursive {
        Some(recursive) => recursive,
        None => false,
    };
    if recursive {
        Removal::Tree
    } else if is_dir {
        Removal::Directory
    } else {
        Removal::File
    }
}

/// How a path is copied.
#[derive(Clone, Copy, PartialEq, Eq, Structural, Debug)]
pub enum CopyMode {
    /// With everything below it.
    Tree,
    /// One file, after the directory it goes to has been created.
    File,
}

/// How a path is copied; a directory only where that is asked for.
pub fn copy(params: &CopyParams, is_dir: bool) -> (res: Result<CopyMode, String>)
    ensures
        match res {
            Ok(mode) => {
                &&& is_dir ==> params.recursive == Some(true)
                &&& mode == if is_dir {
                    CopyMode::Tree
                } else {
                    CopyMode::File
                }
            },
            Err(e) => {
                &&& is_dir
                &&& params.recursive != Some(true)
                &&& e@ == params.from@ + " is a directory; pass recursive=true to copy it"@
            },
        },
{
    if !is_dir {
        return Ok(CopyMode::File);
    }
    let recursive = match params.recursive {
        Some(recursive) => recursive,
        None => false,
    };
    if recursive {
        Ok(CopyMode::Tree)
    } else {
        let mut message = params.from.clone();
        message.append(" is a directory; pass recursive=true to copy it");
        Err(message)
    }
}

/// What is done with an entry of a directory that is being copied.
#[derive(Debug)]
pub struct CopyStep {
    pub from: String,
    pub to: String,
    /// The entry is a directory itself.
    pub descend: bool,
}

/// What is done with the entry `name` of the directory `from`, which is being
/// copied to `to`.
pub fn copy_dir_recursive(from: &str, to: &str, name: &str, is_dir: bool) -> (res: CopyStep)
    ensures
        res.from@ == joined_path(from@, name@),
        res.to@ == joined_path(to@, name@),
        res.descend == is_dir,
{
    CopyStep { from: join_path(from, name), to: join_path(to, name), descend: is_dir }
}

} // verus!
