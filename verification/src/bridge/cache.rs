//! The local cache behind a mount: how reads use it, and how it is filled.
//!
//! A cached file is always a prefix of the remote file, so that its length
//! tells which bytes can be served from it.

use std::collections::hash_map::DefaultHasher;
use std::hash::Hasher;

use vstd::prelude::*;
use vstd::std_specs::hash::DefaultHasherAdditionalSpecFns;
use vstd::utf8::encode_utf8;

use crate::bridge::attrs::Errno;
use crate::bridge::transfer::overwritten;
use crate::encoding::{base64_bytes, base64_decode, decodes_to};
use crate::path::{extended, join_path, joined_path, with_extension};
use crate::protocol::{DirEntry, FileKind, ReadFileResult};
use crate::text::{hex_fixed, opt_str, push_hex, trim_end_char, without_trailing};

verus! {

/// Smallest number of bytes fetched by a read that misses the cache.
pub const READ_CHUNK: u64 = 1024 * 1024;

/// Concurrent chunk fetches while warming the cache during reads.
pub const PREFETCH_INFLIGHT: usize = 4;

/// Bytes fetched at a time while warming the cache.
pub const PREFETCH_CHUNK: u64 = 1024 * 1024;

/// Concurrent chunk fetches for the mount-time background sync.
pub const SYNC_INFLIGHT: usize = 8;

/// Bytes fetched at a time by the mount-time background sync.
pub const SYNC_CHUNK: u64 = 1024 * 1024;

// ---------------------------------------------------------------------------
// Reading
// ---------------------------------------------------------------------------

/// What a read does next.
#[derive(Debug)]
pub enum ReadStep {
    /// Find out how long the cached file is, if there is one.
    ProbeLocal,
    /// Read these bytes of the cached file.
    ReadLocal { offset: u64, len: u64 },
    /// Ask the target.
    Fetch { offset: u64, limit: u64 },
    /// Create the directory of the cached file, and find out how long that is.
    PrepareCache,
    /// Write the bytes into the cached file.
    Store { offset: u64, bytes: Vec<u8> },
    /// The answer; with `warm`, the rest of the file is to be prefetched.
    Reply { bytes: Vec<u8>, warm: bool },
    Fail { errno: Errno },
}

/// What a read does next, as a mathematical value.
pub enum ReadStepView {
    ProbeLocal,
    ReadLocal { offset: u64, len: u64 },
    Fetch { offset: u64, limit: u64 },
    PrepareCache,
    Store { offset: u64, bytes: Seq<u8> },
    Reply { bytes: Seq<u8>, warm: bool },
    Fail { errno: Errno },
}

impl View for ReadStep {
    type V = ReadStepView;

    open spec fn view(&self) -> ReadStepView {
        match self {
            ReadStep::ProbeLocal => ReadStepView::ProbeLocal,
            ReadStep::ReadLocal { offset, len } => ReadStepView::ReadLocal {
                offset: *offset,
                len: *len,
            },
            ReadStep::Fetch { offset, limit } => ReadStepView::Fetch {
                offset: *offset,
                limit: *limit,
            },
            ReadStep::PrepareCache => ReadStepView::PrepareCache,
            ReadStep::Store { offset, bytes } => ReadStepView::Store {
                offset: *offset,
                bytes: bytes@,
            },
            ReadStep::Reply { bytes, warm } => ReadStepView::Reply { bytes: bytes@, warm: *warm },
            ReadStep::Fail { errno } => ReadStepView::Fail { errno: *errno },
        }
    }
}

/// How a step of a read went.
#[derive(Debug)]
pub enum ReadEvent {
    /// The length of the cached file; none where there is no such file.
    Length(Option<u64>),
    /// Bytes of the cached file.
    Bytes(Vec<u8>),
    /// The target's answer.
    Chunk(ReadFileResult),
    /// The bytes have been stored.
    Stored,
    /// The target could not be asked, or refused.
    Refused(Errno),
    /// The step failed: the cached file could not be read or written, or the
    /// answer could not be read.
    Failed,
}

/// How a step of a read went, as a mathematical value.
pub enum ReadEventView {
    Length(Option<u64>),
    Bytes(Seq<u8>),
    Chunk(Seq<char>),
    Stored,
    Refused(Errno),
    Failed,
}

impl View for ReadEvent {
    type V = ReadEventView;

    open spec fn view(&self) -> ReadEventView {
        match self {
            ReadEvent::Length(n) => ReadEventView::Length(*n),
            ReadEvent::Bytes(bytes) => ReadEventView::Bytes(bytes@),
            ReadEvent::Chunk(r) => ReadEventView::Chunk(r.data@),
            ReadEvent::Stored => ReadEventView::Stored,
            ReadEvent::Refused(errno) => ReadEventView::Refused(*errno),
            ReadEvent::Failed => ReadEventView::Failed,
        }
    }
}

/// What a read waits for.
#[derive(Debug)]
pub enum ReadStage {
    Probing,
    ReadingLocal,
    Fetching,
    Preparing { bytes: Vec<u8> },
    Storing { bytes: Vec<u8> },
    /// The target is out of reach: whatever is cached is served.
    FallingBack { errno: Errno },
}

/// What a read waits for, as a mathematical value.
pub enum ReadStageView {
    Probing,
    ReadingLocal,
    Fetching,
    Preparing { bytes: Seq<u8> },
    Storing { bytes: Seq<u8> },
    FallingBack { errno: Errno },
}

impl View for ReadStage {
    type V = ReadStageView;

    open spec fn view(&self) -> ReadStageView {
        match self {
            ReadStage::Probing => ReadStageView::Probing,
            ReadStage::ReadingLocal => ReadStageView::ReadingLocal,
            ReadStage::Fetching => ReadStageView::Fetching,
            ReadStage::Preparing { bytes } => ReadStageView::Preparing { bytes: bytes@ },
            ReadStage::Storing { bytes } => ReadStageView::Storing { bytes: bytes@ },
            ReadStage::FallingBack { errno } => ReadStageView::FallingBack { errno: *errno },
        }
    }
}

/// A read of `size` bytes at `offset`.
#[derive(Debug)]
pub struct ReadOp {
    pub offset: u64,
    pub size: u32,
    pub stage: ReadStage,
}

/// A read, as a mathematical value.
pub struct ReadView {
    pub offset: u64,
    pub size: u32,
    pub stage: ReadStageView,
}

impl View for ReadOp {
    type V = ReadView;

    open spec fn view(&self) -> ReadView {
        ReadView { offset: self.offset, size: self.size, stage: self.stage@ }
    }
}

/// The smaller of two numbers.
pub open spec fn least(a: int, b: int) -> int {
    if a < b {
        a
    } else {
        b
    }
}

/// At most the first `n` bytes.
pub open spec fn at_most(bytes: Seq<u8>, n: int) -> Seq<u8> {
    bytes.take(least(n, bytes.len() as int))
}

impl ReadView {
    /// The read at another stage.
    pub open spec fn at(self, stage: ReadStageView) -> ReadView {
        ReadView { stage, ..self }
    }

    /// How many bytes the target is asked for.
    pub open spec fn limit(self) -> u64 {
        if self.size < READ_CHUNK {
            READ_CHUNK
        } else {
            self.size as u64
        }
    }

    /// Ask the target.
    pub open spec fn fetch(self) -> (ReadView, ReadStepView) {
        (
            self.at(ReadStageView::Fetching),
            ReadStepView::Fetch { offset: self.offset, limit: self.limit() },
        )
    }

    /// Answer with the bytes that came from the target.
    pub open spec fn reply(self, bytes: Seq<u8>, warm: bool) -> (ReadView, ReadStepView) {
        (self, ReadStepView::Reply { bytes: at_most(bytes, self.size as int), warm })
    }

    /// What follows once the length of the cached file is known: it is served
    /// where it reaches beyond `offset`, an empty one is served at 0, and else
    /// the target is asked.
    pub open spec fn probed(self, len: Option<u64>) -> (ReadView, ReadStepView) {
        match len {
            Some(len) => if self.offset < len {
                (
                    self.at(ReadStageView::ReadingLocal),
                    ReadStepView::ReadLocal {
                        offset: self.offset,
                        len: least(self.size as int, len - self.offset) as u64,
                    },
                )
            } else if len == 0 && self.offset == 0 {
                (self, ReadStepView::Reply { bytes: Seq::empty(), warm: false })
            } else {
                self.fetch()
            },
            None => self.fetch(),
        }
    }

    /// What follows an event, and the step to take.
    pub open spec fn next(self, event: ReadEventView) -> (ReadView, ReadStepView) {
        let fail = (self, ReadStepView::Fail { errno: Errno::EIO });
        match self.stage {
            ReadStageView::Probing => match event {
                ReadEventView::Length(len) => self.probed(len),
                _ => self.fetch(),
            },
            ReadStageView::ReadingLocal => match event {
                ReadEventView::Bytes(bytes) => (self, ReadStepView::Reply { bytes, warm: false }),
                _ => self.fetch(),
            },
            ReadStageView::Fetching => match event {
                ReadEventView::Chunk(data) => match base64_bytes(data) {
                    Ok(bytes) => (
                        self.at(ReadStageView::Preparing { bytes }),
                        ReadStepView::PrepareCache,
                    ),
                    Err(_) => fail,
                },
                ReadEventView::Refused(errno) => (
                    self.at(ReadStageView::FallingBack { errno }),
                    ReadStepView::ReadLocal { offset: self.offset, len: self.size as u64 },
                ),
                _ => fail,
            },
            // Bytes are cached only where they extend the cached prefix:
            // writing at a far offset would leave a hole of zeros that could
            // later be served as file data.
            ReadStageView::Preparing { bytes } => {
                let frontier = match event {
                    ReadEventView::Length(Some(len)) => len,
                    _ => 0,
                };
                if self.offset <= frontier {
                    (
                        self.at(ReadStageView::Storing { bytes }),
                        ReadStepView::Store { offset: self.offset, bytes },
                    )
                } else {
                    self.reply(bytes, false)
                }
            },
            ReadStageView::Storing { bytes } => self.reply(bytes, event is Stored),
            ReadStageView::FallingBack { errno } => match event {
                ReadEventView::Bytes(bytes) => (self, ReadStepView::Reply { bytes, warm: false }),
                _ => (self, ReadStepView::Fail { errno }),
            },
        }
    }
}

/// The first `n` bytes, or all of them.
fn first_bytes(bytes: &[u8], n: usize) -> (res: Vec<u8>)
    ensures
        res@ == at_most(bytes@, n as int),
{
    let mut out: Vec<u8> = Vec::new();
    let total: usize = bytes.len();
    let end: usize = if n < total {
        n
    } else {
        total
    };
    let mut i: usize = 0;
    while i < end
        invariant
            i <= end <= bytes@.len(),
            out@ == bytes@.take(i as int),
        decreases end - i,
    {
        assert(bytes@.take(i + 1) =~= bytes@.take(i as int).push(bytes@[i as int]));
        out.push(bytes[i]);
        i += 1;
    }
    out
}

impl ReadOp {
    /// A read, and its first step.
    pub fn new(offset: u64, size: u32) -> (res: (Self, ReadStep))
        ensures
            res.0@ == (ReadView { offset, size, stage: ReadStageView::Probing }),
            res.1@ == ReadStepView::ProbeLocal,
    {
        (ReadOp { offset, size, stage: ReadStage::Probing }, ReadStep::ProbeLocal)
    }

    /// Asks the target.
    fn fetch(&mut self) -> (res: ReadStep)
        ensures
            (final(self)@, res@) == old(self)@.fetch(),
    {
        self.stage = ReadStage::Fetching;
        let limit: u64 = if (self.size as u64) < READ_CHUNK {
            READ_CHUNK
        } else {
            self.size as u64
        };
        ReadStep::Fetch { offset: self.offset, limit }
    }

    /// The last step went as `event` says: the step that follows.
    pub fn next(&mut self, event: ReadEvent) -> (res: ReadStep)
        ensures
            (final(self)@, res@) == old(self)@.next(event@),
            final(self).offset == old(self).offset,
            final(self).size == old(self).size,
            forall|offset: u64, limit: u64|
                res@ == (ReadStepView::Fetch { offset, limit }) ==> offset == old(self).offset
                    && limit >= old(self).size && limit >= 1024 * 1024 && (limit == old(self).size
                    || limit == 1024 * 1024),
            forall|offset: u64, len: u64|
                res@ == (ReadStepView::ReadLocal { offset, len }) ==> offset == old(self).offset
                    && len <= old(self).size,
            forall|offset: u64, bytes: Seq<u8>|
                res@ == (ReadStepView::Store { offset, bytes }) ==> offset == old(self).offset
                    && old(self)@.stage == (ReadStageView::Preparing { bytes }),
    {
        let size: usize = self.size as usize;
        let mut stage = ReadStage::Probing;
        std::mem::swap(&mut stage, &mut self.stage);
        match stage {
            ReadStage::Probing => {
                if let ReadEvent::Length(Some(len)) = event {
                    if self.offset < len {
                        let rest: u64 = len - self.offset;
                        let wanted: u64 = self.size as u64;
                        self.stage = ReadStage::ReadingLocal;
                        return ReadStep::ReadLocal {
                            offset: self.offset,
                            len: if wanted < rest {
                                wanted
                            } else {
                                rest
                            },
                        };
                    }
                    if len == 0 && self.offset == 0 {
                        let bytes: Vec<u8> = Vec::new();
                        assert(bytes@ =~= Seq::<u8>::empty());
                        return ReadStep::Reply { bytes, warm: false };
                    }
                }
                self.fetch()
            },
            ReadStage::ReadingLocal => {
                if let ReadEvent::Bytes(bytes) = event {
                    self.stage = ReadStage::ReadingLocal;
                    return ReadStep::Reply { bytes, warm: false };
                }
                self.fetch()
            },
            ReadStage::Fetching => {
                self.stage = ReadStage::Fetching;
                match event {
                    ReadEvent::Chunk(r) => match base64_decode(r.data.as_str(), "") {
                        Ok(bytes) => {
                            self.stage = ReadStage::Preparing { bytes };
                            ReadStep::PrepareCache
                        },
                        Err(_) => ReadStep::Fail { errno: Errno::EIO },
                    },
                    ReadEvent::Refused(errno) => {
                        self.stage = ReadStage::FallingBack { errno };
                        ReadStep::ReadLocal { offset: self.offset, len: self.size as u64 }
                    },
                    _ => ReadStep::Fail { errno: Errno::EIO },
                }
            },
            ReadStage::Preparing { bytes } => {
                let frontier: u64 = match event {
                    ReadEvent::Length(Some(len)) => len,
                    _ => 0,
                };
                if self.offset <= frontier {
                    let all = first_bytes(bytes.as_slice(), bytes.len());
                    assert(at_most(bytes@, bytes@.len() as int) =~= bytes@);
                    self.stage = ReadStage::Storing { bytes };
                    ReadStep::Store { offset: self.offset, bytes: all }
                } else {
                    let shown = first_bytes(bytes.as_slice(), size);
                    self.stage = ReadStage::Preparing { bytes };
                    ReadStep::Reply { bytes: shown, warm: false }
                }
            },
            ReadStage::Storing { bytes } => {
                let warm = match event {
                    ReadEvent::Stored => true,
                    _ => false,
                };
                let shown = first_bytes(bytes.as_slice(), size);
                self.stage = ReadStage::Storing { bytes };
                ReadStep::Reply { bytes: shown, warm }
            },
            ReadStage::FallingBack { errno } => {
                self.stage = ReadStage::FallingBack { errno };
                match event {
                    ReadEvent::Bytes(bytes) => ReadStep::Reply { bytes, warm: false },
                    _ => ReadStep::Fail { errno },
                }
            },
        }
    }
}

// ---------------------------------------------------------------------------
// Laws of reading
// ---------------------------------------------------------------------------

/// The cached file holds the first bytes of the remote file.
pub open spec fn is_prefix(cached: Seq<u8>, remote: Seq<u8>) -> bool {
    cached.len() <= remote.len() && cached == remote.take(cached.len() as int)
}

/// The bytes are those of the remote file at `offset`.
pub open spec fn are_from(bytes: Seq<u8>, remote: Seq<u8>, offset: int) -> bool {
    0 <= offset && offset + bytes.len() <= remote.len() && bytes == remote.subrange(
        offset,
        offset + bytes.len(),
    )
}

/// A read stores bytes only where they join what is cached.
pub proof fn lemma_store_leaves_no_hole(read: ReadView, event: ReadEventView)
    requires
        read.next(event).1 is Store,
    ensures
        read.next(event).1->Store_offset <= match event {
            ReadEventView::Length(Some(len)) => len,
            _ => 0,
        },
        read.stage is Preparing,
        read.next(event).1->Store_bytes == read.stage->Preparing_bytes,
{
}

/// Storing bytes of the remote file where they join the cached prefix leaves a
/// cached prefix that reaches as far as both.
pub proof fn lemma_store_keeps_prefix(
    cached: Seq<u8>,
    remote: Seq<u8>,
    offset: int,
    bytes: Seq<u8>,
)
    requires
        is_prefix(cached, remote),
        are_from(bytes, remote, offset),
        offset <= cached.len(),
    ensures
        is_prefix(overwritten(cached, offset, bytes), remote),
        overwritten(cached, offset, bytes).len() >= cached.len(),
        overwritten(cached, offset, bytes).len() >= offset + bytes.len(),
{
    let after = overwritten(cached, offset, bytes);
    assert forall|i: int| 0 <= i < after.len() implies after[i] == remote[i] by {
        if offset <= i < offset + bytes.len() {
            assert(bytes[i - offset] == remote.subrange(offset, offset + bytes.len())[i - offset]);
        } else {
            assert(cached[i] == remote.take(cached.len() as int)[i]);
        }
    }
    assert(after =~= remote.take(after.len() as int));
}

/// What is served from the cached prefix are the bytes of the remote file.
pub proof fn lemma_cache_hit_is_remote_data(
    cached: Seq<u8>,
    remote: Seq<u8>,
    read: ReadView,
    bytes: Seq<u8>,
)
    requires
        is_prefix(cached, remote),
        cached.len() <= u64::MAX,
        read.stage is Probing,
        read.next(ReadEventView::Length(Some(cached.len() as u64))).1 is ReadLocal,
        bytes == cached.subrange(
            read.offset as int,
            read.offset + read.next(
                ReadEventView::Length(Some(cached.len() as u64)),
            ).1->ReadLocal_len,
        ),
    ensures
        are_from(bytes, remote, read.offset as int),
        bytes.len() == least(read.size as int, cached.len() - read.offset),
{
    let len = read.next(ReadEventView::Length(Some(cached.len() as u64))).1->ReadLocal_len;
    assert forall|i: int| 0 <= i < len implies bytes[i] == remote[read.offset + i] by {
        assert(bytes[i] == cached[read.offset + i]);
        assert(cached[read.offset + i] == remote.take(cached.len() as int)[read.offset + i]);
    }
    assert(bytes =~= remote.subrange(read.offset as int, read.offset + len));
}

/// At most `n` bytes of a file, from `offset` on: fewer where the file ends first.
pub open spec fn part(file: Seq<u8>, offset: int, n: int) -> Seq<u8> {
    if offset + n <= file.len() {
        file.subrange(offset, offset + n)
    } else if offset <= file.len() {
        file.subrange(offset, file.len() as int)
    } else {
        Seq::empty()
    }
}

/// The event is an honest answer to the step, for the remote file `remote` and
/// the cached file `cached`, if there is one: the target sends its bytes at the
/// offset that it was asked for, and the cache gives what it holds. A step may
/// also fail.
pub open spec fn answers(
    event: ReadEventView,
    step: ReadStepView,
    remote: Seq<u8>,
    cached: Option<Seq<u8>>,
) -> bool {
    match step {
        ReadStepView::ProbeLocal => match event {
            ReadEventView::Length(Some(len)) => cached is Some && len == cached->0.len(),
            ReadEventView::Length(None) => cached is None,
            _ => event is Failed,
        },
        ReadStepView::ReadLocal { offset, len } => match event {
            ReadEventView::Bytes(bytes) => cached is Some && bytes == part(
                cached->0,
                offset as int,
                len as int,
            ),
            _ => event is Failed,
        },
        ReadStepView::Fetch { offset, limit } => match event {
            ReadEventView::Chunk(data) => base64_bytes(data) == Ok::<Seq<u8>, Seq<char>>(
                part(remote, offset as int, limit as int),
            ),
            _ => event is Failed || event is Refused,
        },
        ReadStepView::PrepareCache => event is Length || event is Failed,
        ReadStepView::Store { .. } => event is Stored || event is Failed,
        ReadStepView::Reply { .. } => false,
        ReadStepView::Fail { .. } => false,
    }
}

/// The read and its step once the events have come, one after the other.
pub open spec fn read_run(
    read: ReadView,
    step: ReadStepView,
    events: Seq<ReadEventView>,
) -> (ReadView, ReadStepView)
    decreases events.len(),
{
    if events.len() == 0 {
        (read, step)
    } else {
        let (read, _) = read_run(read, step, events.drop_last());
        read.next(events.last())
    }
}

/// Each event is an honest answer to the step that the read was at.
pub open spec fn read_answered(
    read: ReadView,
    step: ReadStepView,
    events: Seq<ReadEventView>,
    remote: Seq<u8>,
    cached: Option<Seq<u8>>,
) -> bool
    decreases events.len(),
{
    events.len() > 0 ==> read_answered(read, step, events.drop_last(), remote, cached) && answers(
        events.last(),
        read_run(read, step, events.drop_last()).1,
        remote,
        cached,
    )
}

/// No step has failed, and the target has refused nothing.
pub open spec fn all_went_well(events: Seq<ReadEventView>) -> bool {
    forall|i: int|
        0 <= i < events.len() ==> !((#[trigger] events[i]) is Failed) && !(events[i] is Refused)
}

/// Where a read stands: what it asks for is its own part of the file, and what
/// it has is that part of the remote file.
spec fn on_course(
    read: ReadView,
    step: ReadStepView,
    remote: Seq<u8>,
    cached: Option<Seq<u8>>,
    well: bool,
    count: int,
) -> bool {
    let asked = part(remote, read.offset as int, read.size as int);
    match step {
        ReadStepView::ProbeLocal => read.stage == ReadStageView::Probing && count == 0,
        ReadStepView::ReadLocal { offset, len } => {
            &&& offset == read.offset
            &&& read.stage == ReadStageView::ReadingLocal ==> {
                &&& cached is Some
                &&& offset < cached->0.len()
                &&& len == if read.size < cached->0.len() - offset {
                    read.size as int
                } else {
                    cached->0.len() - offset
                }
                &&& count == 1
            }
            &&& read.stage != ReadStageView::ReadingLocal ==> {
                &&& read.stage is FallingBack
                &&& len == read.size
                &&& !well
                &&& count <= 3
            }
        },
        ReadStepView::Fetch { offset, limit } => {
            &&& read.stage == ReadStageView::Fetching
            &&& offset == read.offset
            &&& limit >= read.size
            &&& well && cached is Some ==> offset >= cached->0.len()
            &&& count <= 2
        },
        ReadStepView::PrepareCache => {
            &&& read.stage is Preparing
            &&& exists|n: int|
                n >= read.size && read.stage->Preparing_bytes == #[trigger] part(
                    remote,
                    read.offset as int,
                    n,
                )
            &&& count <= 3
        },
        ReadStepView::Store { offset, bytes } => {
            &&& read.stage == (ReadStageView::Storing { bytes })
            &&& offset == read.offset
            &&& exists|n: int|
                n >= read.size && bytes == #[trigger] part(remote, read.offset as int, n)
            &&& count <= 4
        },
        ReadStepView::Reply { bytes, warm } => {
            ||| bytes == asked
            ||| bytes.len() > 0 && is_prefix(bytes, asked) && cached is Some && !warm
            ||| !well && cached is Some && !warm && bytes == part(
                cached->0,
                read.offset as int,
                read.size as int,
            )
        },
        ReadStepView::Fail { .. } => !well,
    }
}

/// An honest answer to the probe keeps a read on course.
proof fn lemma_probe_keeps_course(
    read: ReadView,
    step: ReadStepView,
    event: ReadEventView,
    remote: Seq<u8>,
    cached: Option<Seq<u8>>,
    well: bool,
    count: int,
)
    requires
        step is ProbeLocal,
        on_course(read, step, remote, cached, well, count),
        answers(event, step, remote, cached),
        remote.len() <= u64::MAX,
        cached is Some ==> is_prefix(cached->0, remote),
        cached is Some && cached->0.len() == 0 ==> remote.len() == 0,
    ensures
        read.next(event).0.offset == read.offset,
        read.next(event).0.size == read.size,
        count <= 4,
        on_course(
            read.next(event).0,
            read.next(event).1,
            remote,
            cached,
            well && !(event is Failed) && !(event is Refused),
            count + 1,
        ),
{
    let asked = part(remote, read.offset as int, read.size as int);
    let (after, next) = read.next(event);
    match event {
        ReadEventView::Length(Some(len)) => {
            assert((after, next) == read.probed(Some(len)));
            if read.offset < len {
                assert(after.stage == ReadStageView::ReadingLocal);
                assert(next is ReadLocal);
                assert(next->ReadLocal_offset == read.offset);
                if read.size < len - read.offset {
                    assert(next->len == read.size);
                } else {
                    assert(next->len == len - read.offset);
                }
            } else if len == 0 && read.offset == 0 {
                assert(asked =~= Seq::<u8>::empty());
                assert(next == (ReadStepView::Reply { bytes: Seq::empty(), warm: false }));
            } else {
                assert((after, next) == read.fetch());
            }
        },
        _ => {
            assert((after, next) == read.fetch());
        },
    }
}

/// An honest answer of the cache keeps a read on course.
proof fn lemma_local_read_keeps_course(
    read: ReadView,
    step: ReadStepView,
    event: ReadEventView,
    remote: Seq<u8>,
    cached: Option<Seq<u8>>,
    well: bool,
    count: int,
)
    requires
        step is ReadLocal,
        on_course(read, step, remote, cached, well, count),
        answers(event, step, remote, cached),
        remote.len() <= u64::MAX,
        cached is Some ==> is_prefix(cached->0, remote),
        cached is Some && cached->0.len() == 0 ==> remote.len() == 0,
    ensures
        read.next(event).0.offset == read.offset,
        read.next(event).0.size == read.size,
        count <= 4,
        on_course(
            read.next(event).0,
            read.next(event).1,
            remote,
            cached,
            well && !(event is Failed) && !(event is Refused),
            count + 1,
        ),
{
    let asked = part(remote, read.offset as int, read.size as int);
    if let ReadEventView::Bytes(bytes) = event {
        let all = cached->0;
        assert(all =~= remote.take(all.len() as int));
        if read.stage == ReadStageView::ReadingLocal {
            if read.size == 0 {
                assert(bytes =~= asked);
            } else {
                assert(bytes.len() > 0);
                assert(bytes =~= asked.take(bytes.len() as int));
            }
        }
    }
}

/// An honest answer of the target keeps a read on course.
proof fn lemma_fetch_keeps_course(
    read: ReadView,
    step: ReadStepView,
    event: ReadEventView,
    remote: Seq<u8>,
    cached: Option<Seq<u8>>,
    well: bool,
    count: int,
)
    requires
        step is Fetch,
        on_course(read, step, remote, cached, well, count),
        answers(event, step, remote, cached),
        remote.len() <= u64::MAX,
        cached is Some ==> is_prefix(cached->0, remote),
        cached is Some && cached->0.len() == 0 ==> remote.len() == 0,
    ensures
        read.next(event).0.offset == read.offset,
        read.next(event).0.size == read.size,
        count <= 4,
        on_course(
            read.next(event).0,
            read.next(event).1,
            remote,
            cached,
            well && !(event is Failed) && !(event is Refused),
            count + 1,
        ),
{
    let (after, next) = read.next(event);
    match event {
        ReadEventView::Chunk(data) => {
            let n = step->limit as int;
            let bytes = part(remote, read.offset as int, n);
            assert(base64_bytes(data) == Ok::<Seq<u8>, Seq<char>>(bytes));
            assert(after == read.at(ReadStageView::Preparing { bytes }));
            assert(next == ReadStepView::PrepareCache);
            assert(n >= after.size && after.stage->Preparing_bytes == part(
                remote,
                after.offset as int,
                n,
            ));
        },
        ReadEventView::Refused(errno) => {
            assert(after == read.at(ReadStageView::FallingBack { errno }));
            assert(next == (ReadStepView::ReadLocal {
                offset: read.offset,
                len: read.size as u64,
            }));
        },
        _ => {
            assert(next is Fail);
        },
    }
}

/// What is stored, and what is replied, keeps a read on course.
proof fn lemma_store_keeps_course(
    read: ReadView,
    step: ReadStepView,
    event: ReadEventView,
    remote: Seq<u8>,
    cached: Option<Seq<u8>>,
    well: bool,
    count: int,
)
    requires
        step is PrepareCache || step is Store,
        on_course(read, step, remote, cached, well, count),
        answers(event, step, remote, cached),
        remote.len() <= u64::MAX,
        cached is Some ==> is_prefix(cached->0, remote),
        cached is Some && cached->0.len() == 0 ==> remote.len() == 0,
    ensures
        read.next(event).0.offset == read.offset,
        read.next(event).0.size == read.size,
        count <= 4,
        on_course(
            read.next(event).0,
            read.next(event).1,
            remote,
            cached,
            well && !(event is Failed) && !(event is Refused),
            count + 1,
        ),
{
    let asked = part(remote, read.offset as int, read.size as int);
    let bytes = if step is PrepareCache {
        read.stage->Preparing_bytes
    } else {
        step->Store_bytes
    };
    let n = choose|n: int|
        n >= read.size && bytes == #[trigger] part(remote, read.offset as int, n);
    assert(bytes == part(remote, read.offset as int, n));
    assert(at_most(bytes, read.size as int) =~= asked);
}

/// One honest answer keeps a read on course.
proof fn lemma_answer_keeps_course(
    read: ReadView,
    step: ReadStepView,
    event: ReadEventView,
    remote: Seq<u8>,
    cached: Option<Seq<u8>>,
    well: bool,
    count: int,
)
    requires
        on_course(read, step, remote, cached, well, count),
        answers(event, step, remote, cached),
        remote.len() <= u64::MAX,
        cached is Some ==> is_prefix(cached->0, remote),
        cached is Some && cached->0.len() == 0 ==> remote.len() == 0,
    ensures
        read.next(event).0.offset == read.offset,
        read.next(event).0.size == read.size,
        count <= 4,
        on_course(
            read.next(event).0,
            read.next(event).1,
            remote,
            cached,
            well && !(event is Failed) && !(event is Refused),
            count + 1,
        ),
{
    match step {
        ReadStepView::ProbeLocal => {
            lemma_probe_keeps_course(read, step, event, remote, cached, well, count);
        },
        ReadStepView::ReadLocal { .. } => {
            lemma_local_read_keeps_course(read, step, event, remote, cached, well, count);
        },
        ReadStepView::Fetch { .. } => {
            lemma_fetch_keeps_course(read, step, event, remote, cached, well, count);
        },
        ReadStepView::PrepareCache => {
            lemma_store_keeps_course(read, step, event, remote, cached, well, count);
        },
        ReadStepView::Store { .. } => {
            lemma_store_keeps_course(read, step, event, remote, cached, well, count);
        },
        _ => {},
    }
}

/// The course of a whole run.
proof fn lemma_run_keeps_course(
    read: ReadView,
    events: Seq<ReadEventView>,
    remote: Seq<u8>,
    cached: Option<Seq<u8>>,
)
    requires
        read.stage == ReadStageView::Probing,
        read_answered(read, ReadStepView::ProbeLocal, events, remote, cached),
        remote.len() <= u64::MAX,
        cached is Some ==> is_prefix(cached->0, remote),
        cached is Some && cached->0.len() == 0 ==> remote.len() == 0,
    ensures
        events.len() <= 5,
        ({
            let (after, step) = read_run(read, ReadStepView::ProbeLocal, events);
            &&& after.offset == read.offset
            &&& after.size == read.size
            &&& on_course(after, step, remote, cached, all_went_well(events), events.len() as int)
        }),
    decreases events.len(),
{
    if events.len() > 0 {
        let before = events.drop_last();
        lemma_run_keeps_course(read, before, remote, cached);
        let (here, step) = read_run(read, ReadStepView::ProbeLocal, before);
        lemma_answer_keeps_course(
            here,
            step,
            events.last(),
            remote,
            cached,
            all_went_well(before),
            before.len() as int,
        );
        let last = events.last();
        assert(all_went_well(events) == (all_went_well(before) && !(last is Failed) && !(
        last is Refused))) by {
            assert forall|i: int| 0 <= i < before.len() implies #[trigger] events[i]
                == before[i] by {}
            assert(events[events.len() - 1] == last);
            if all_went_well(events) {
                assert forall|i: int| 0 <= i < before.len() implies !((
                #[trigger] before[i]) is Failed) && !(before[i] is Refused) by {
                    assert(events[i] == before[i]);
                }
            }
        }
    }
}

/// A read answers with the bytes of the remote file at its own offset. For a
/// remote file, a cached prefix of it, and honest answers to every step: the
/// reply is exactly the part of the remote file that was asked for, or, where the
/// cache holds its beginning, a part of it that is not empty. Only where a step
/// fails can it be just what the cache has. On the way the target and the cache
/// are asked for the read's own offset, the target for no less than the read's
/// size and not where the cache has the first byte, and only bytes of the remote
/// file are stored, where they belong. A read whose steps go well does not fail,
/// and it is over after five steps at most.
///
/// An empty cached file stands for an empty file: it is served as such.
pub proof fn lemma_read_answers_with_remote_data(
    read: ReadView,
    events: Seq<ReadEventView>,
    remote: Seq<u8>,
    cached: Option<Seq<u8>>,
)
    requires
        read.stage == ReadStageView::Probing,
        read_answered(read, ReadStepView::ProbeLocal, events, remote, cached),
        remote.len() <= u64::MAX,
        cached is Some ==> is_prefix(cached->0, remote),
        cached is Some && cached->0.len() == 0 ==> remote.len() == 0,
    ensures
        events.len() <= 5,
        match read_run(read, ReadStepView::ProbeLocal, events).1 {
            ReadStepView::ProbeLocal => events.len() == 0,
            ReadStepView::ReadLocal { offset, len } => offset == read.offset && len <= read.size,
            ReadStepView::Fetch { offset, limit } => {
                &&& offset == read.offset
                &&& limit >= read.size
                &&& all_went_well(events) && cached is Some ==> offset >= cached->0.len()
            },
            ReadStepView::PrepareCache => true,
            ReadStepView::Store { offset, bytes } => {
                &&& offset == read.offset
                &&& exists|n: int|
                    n >= read.size && bytes == #[trigger] part(remote, read.offset as int, n)
            },
            ReadStepView::Reply { bytes, warm } => {
                let asked = part(remote, read.offset as int, read.size as int);
                ||| bytes == asked
                ||| bytes.len() > 0 && is_prefix(bytes, asked) && cached is Some && !warm
                ||| !all_went_well(events) && cached is Some && !warm && bytes == part(
                    cached->0,
                    read.offset as int,
                    read.size as int,
                )
            },
            ReadStepView::Fail { .. } => !all_went_well(events),
        },
{
    lemma_run_keeps_course(read, events, remote, cached);
}

/// What comes from the target is cached, all of it and at its place, wherever the
/// cached file reaches that far, and nowhere else. The reply is the same whether
/// or not that succeeds.
pub proof fn lemma_fetched_bytes_are_cached(
    read: ReadView,
    bytes: Seq<u8>,
    len: u64,
    event: ReadEventView,
)
    requires
        read.stage == (ReadStageView::Preparing { bytes }),
    ensures
        ({
            let (storing, step) = read.next(ReadEventView::Length(Some(len)));
            &&& step == (ReadStepView::Store { offset: read.offset, bytes }) <==> read.offset <= len
            &&& read.offset > len ==> step is Reply
            &&& read.offset <= len ==> {
                let reply = storing.next(event).1;
                &&& reply is Reply
                &&& reply->Reply_bytes == bytes.take(
                    if read.size < bytes.len() {
                        read.size as int
                    } else {
                        bytes.len() as int
                    },
                )
            }
        }),
        read.offset == 0 ==> read.next(event).1 == (ReadStepView::Store { offset: 0, bytes }),
{
}

/// A read that the target refuses, or that does not reach it, is answered with what
/// is cached at its place, and where that cannot be read it fails as the target
/// did. An answer of the target that cannot be read fails it too.
pub proof fn lemma_refused_read_falls_back_to_the_cache(
    read: ReadView,
    errno: Errno,
    bytes: Seq<u8>,
    data: Seq<char>,
)
    requires
        read.stage == ReadStageView::Fetching,
        base64_bytes(data) is Err,
    ensures
        ({
            let (refused, step) = read.next(ReadEventView::Refused(errno));
            &&& step == (ReadStepView::ReadLocal { offset: read.offset, len: read.size as u64 })
            &&& refused.next(ReadEventView::Bytes(bytes)).1 == (ReadStepView::Reply {
                bytes,
                warm: false,
            })
            &&& refused.next(ReadEventView::Failed).1 == (ReadStepView::Fail { errno })
            &&& read.next(ReadEventView::Chunk(data)).1 == (ReadStepView::Fail {
                errno: Errno::EIO,
            })
            &&& read.next(ReadEventView::Failed).1 == (ReadStepView::Fail { errno: Errno::EIO })
        }),
{
}

/// The rest of the file is prefetched once bytes from the target have been
/// cached, and only then.
pub proof fn lemma_read_warms_the_cache_after_a_store(read: ReadView, event: ReadEventView)
    ensures
        forall|bytes: Seq<u8>, warm: bool| #[trigger]
            read.next(event).1 == (ReadStepView::Reply { bytes, warm }) ==> (warm <==> event
                is Stored && read.stage is Storing),
{
}

// ---------------------------------------------------------------------------
// Chunks
// ---------------------------------------------------------------------------

/// A piece of a file: where it begins, and how long it is.
pub type Chunk = (u64, u64);

/// The chunks tile `[from, to)`: each begins where the one before it ends.
pub open spec fn tiles(chunks: Seq<Chunk>, from: int, to: int) -> bool
    decreases chunks.len(),
{
    if chunks.len() == 0 {
        from == to
    } else {
        let last = chunks.last();
        &&& last.0 + last.1 == to
        &&& last.1 > 0
        &&& tiles(chunks.drop_last(), from, last.0 as int)
    }
}

/// Every chunk is at most `max` long.
pub open spec fn are_bounded(chunks: Seq<Chunk>, max: u64) -> bool {
    forall|i: int| 0 <= i < chunks.len() ==> (#[trigger] chunks[i]).1 <= max
}

/// Only the last of the chunks that make up `[from, to)` is shorter than `max`.
pub open spec fn are_full(chunks: Seq<Chunk>, max: u64) -> bool {
    forall|i: int| 0 <= i < chunks.len() - 1 ==> (#[trigger] chunks[i]).1 == max
}

/// One more chunk.
proof fn lemma_tiles_push(chunks: Seq<Chunk>, from: int, to: int, n: u64)
    requires
        tiles(chunks, from, to),
        0 <= to,
        to + n <= u64::MAX,
        n > 0,
    ensures
        tiles(chunks.push((to as u64, n)), from, to + n),
{
    assert(chunks.push((to as u64, n)).drop_last() =~= chunks);
}

/// The chunks to prefetch of a file of `size` bytes of which `from` are cached.
pub fn prefetch_tail(from: u64, size: u64) -> (res: Vec<Chunk>)
    ensures
        from < size ==> tiles(res@, from as int, size as int),
        from >= size ==> res@.len() == 0,
        are_bounded(res@, PREFETCH_CHUNK),
        are_full(res@, PREFETCH_CHUNK),
        forall|i: int|
            0 <= i < res@.len() ==> (#[trigger] res@[i]).1 <= 1024 * 1024 && (i < res@.len() - 1
                ==> res@[i].1 == 1024 * 1024),
{
    let mut out: Vec<Chunk> = Vec::new();
    let mut at: u64 = from;
    while at < size
        invariant
            from <= at,
            from < size ==> at <= size,
            tiles(out@, from as int, at as int),
            are_bounded(out@, PREFETCH_CHUNK),
            at < size ==> forall|i: int|
                0 <= i < out@.len() ==> (#[trigger] out@[i]).1 == PREFETCH_CHUNK,
            are_full(out@, PREFETCH_CHUNK),
            from >= size ==> out@.len() == 0 && at == from,
        decreases size - at,
    {
        let rest: u64 = size - at;
        let n: u64 = if rest < PREFETCH_CHUNK {
            rest
        } else {
            PREFETCH_CHUNK
        };
        let ghost before = out@;
        proof {
            lemma_tiles_push(before, from as int, at as int, n);
        }
        out.push((at, n));
        proof {
            assert(out@ == before.push((at, n)));
            assert forall|i: int| 0 <= i < out@.len() - 1 implies (#[trigger] out@[i]).1
                == PREFETCH_CHUNK by {
                assert(out@[i] == before[i]);
            }
        }
        at = at + n;
    }
    out
}

/// The bytes of a chunk that was fetched; none where the text cannot be decoded
/// or holds no bytes.
pub open spec fn chunk_bytes(data: Seq<char>) -> Option<Seq<u8>> {
    match base64_bytes(data) {
        Ok(bytes) => if bytes.len() > 0 {
            Some(bytes)
        } else {
            None
        },
        Err(_) => None,
    }
}

/// The bytes of a chunk that was fetched.
pub fn fetched_chunk(read: &ReadFileResult) -> (res: Option<Vec<u8>>)
    ensures
        match res {
            Some(bytes) => chunk_bytes(read.data@) == Some(bytes@),
            None => chunk_bytes(read.data@) is None,
        },
        forall|bytes: Seq<u8>|
            bytes.len() > 0 && #[trigger] decodes_to(read.data@, bytes) ==> res is Some
                && res->0@ == bytes,
        res is Some ==> res->0@.len() > 0 && decodes_to(read.data@, res->0@),
{
    match base64_decode(read.data.as_str(), "") {
        Ok(bytes) => if bytes.len() > 0 {
            Some(bytes)
        } else {
            None
        },
        Err(_) => None,
    }
}

/// `came` bytes of a chunk of `limit` leave no hole: they are all that were asked
/// for, or some of the last chunk of a file, behind which there is nothing.
pub open spec fn leaves_no_hole(came: int, limit: int, last: bool) -> bool {
    came > 0 && (last || came >= limit)
}

/// A prefetch under way. Its chunks are stored in order, up to the first that
/// would leave a hole or could not be stored.
#[derive(Debug)]
pub struct Prefetch {
    chunks: Vec<Chunk>,
    /// How many chunks have come.
    at: usize,
    /// Nothing more is stored.
    over: bool,
}

/// A prefetch, as a mathematical value.
#[verifier::ext_equal]
pub struct PrefetchView {
    pub chunks: Seq<Chunk>,
    pub at: nat,
    pub over: bool,
}

impl View for Prefetch {
    type V = PrefetchView;

    closed spec fn view(&self) -> PrefetchView {
        PrefetchView { chunks: self.chunks@, at: self.at as nat, over: self.over }
    }
}

impl PrefetchView {
    /// Where the bytes of the next chunk belong, where they are still stored and
    /// leave no hole: `came` is how many came.
    pub open spec fn place(self, came: Option<nat>) -> Option<u64> {
        if !self.over && self.at < self.chunks.len() && came is Some && leaves_no_hole(
            came->0 as int,
            self.chunks[self.at as int].1 as int,
            self.at == self.chunks.len() - 1,
        ) {
            Some(self.chunks[self.at as int].0)
        } else {
            None
        }
    }

    /// The prefetch once the next chunk has come, or not.
    pub open spec fn next(self, came: Option<nat>) -> PrefetchView {
        if self.place(came) is Some {
            PrefetchView { at: self.at + 1, ..self }
        } else {
            PrefetchView { over: true, ..self }
        }
    }
}

/// How many bytes came, where some did.
pub open spec fn came(bytes: Option<Vec<u8>>) -> Option<nat> {
    match bytes {
        Some(b) => Some(b@.len()),
        None => None,
    }
}

impl Prefetch {
    /// A prefetch of the given chunks.
    pub fn new(chunks: Vec<Chunk>) -> (res: Self)
        ensures
            res@ == (PrefetchView { chunks: chunks@, at: 0, over: false }),
    {
        Prefetch { chunks, at: 0, over: false }
    }

    /// The next chunk, in the order of the chunks, has come, or not: where its
    /// bytes are stored, or none where the prefetch is over.
    pub fn fetched(&mut self, bytes: Option<Vec<u8>>) -> (res: Option<(u64, Vec<u8>)>)
        ensures
            final(self)@ == old(self)@.next(came(bytes)),
            match res {
                Some((offset, b)) => {
                    &&& old(self)@.place(came(bytes)) == Some(offset)
                    &&& Some(b) == bytes
                },
                None => old(self)@.place(came(bytes)) is None,
            },
            res is Some <==> !old(self)@.over && old(self)@.at < old(self)@.chunks.len() && bytes
                is Some && bytes->0@.len() > 0 && (old(self)@.at == old(self)@.chunks.len() - 1
                || bytes->0@.len() >= old(self)@.chunks[old(self)@.at as int].1),
            res matches Some((offset, b)) ==> offset == old(self)@.chunks[old(self)@.at as int].0
                && b@ == bytes->0@ && final(self)@.at == old(self)@.at + 1 && !final(self)@.over,
            res is None ==> final(self)@.over && final(self)@.at == old(self)@.at,
            final(self)@.chunks == old(self)@.chunks,
    {
        if !self.over && self.at < self.chunks.len() {
            if let Some(bytes) = bytes {
                let (offset, limit) = self.chunks[self.at];
                let n: usize = bytes.len();
                if n > 0 && (self.at == self.chunks.len() - 1 || n as u64 >= limit) {
                    self.at = self.at + 1;
                    return Some((offset, bytes));
                }
            }
        }
        self.over = true;
        None
    }

    /// The bytes of a chunk were stored, or not: whether to go on.
    pub fn stored(&mut self, ok: bool) -> (res: bool)
        ensures
            final(self)@ == (PrefetchView { over: old(self)@.over || !ok, ..old(self)@ }),
            res == !final(self)@.over,
    {
        if !ok {
            self.over = true;
        }
        !self.over
    }
}

/// Chunks are stored in their order and none after a gap: once one did not come
/// as it should nothing is stored any more, and each begins no later than the
/// bytes of the one before it end.
pub proof fn lemma_prefetch_stops_at_a_gap(
    p: PrefetchView,
    from: int,
    to: int,
    one: Option<nat>,
    two: Option<nat>,
)
    requires
        tiles(p.chunks, from, to),
    ensures
        one is None ==> p.place(one) is None,
        p.place(one) is None ==> p.next(one).over,
        p.over ==> p.place(one) is None,
        p.place(one) is Some && p.next(one).place(two) is Some ==> p.next(one).place(two)->0
            <= p.place(one)->0 + one->0,
{
    if p.at + 1 < p.chunks.len() {
        lemma_tiles_step(p.chunks, from, to, p.at as int);
    }
}

/// In a tiling each chunk begins where the one before it ends.
proof fn lemma_tiles_step(chunks: Seq<Chunk>, from: int, to: int, i: int)
    requires
        tiles(chunks, from, to),
        0 <= i < chunks.len() - 1,
    ensures
        chunks[i + 1].0 == chunks[i].0 + chunks[i].1,
    decreases chunks.len(),
{
    let front = chunks.drop_last();
    if i + 1 == chunks.len() - 1 {
        assert(tiles(front, from, chunks.last().0 as int));
        assert(front.len() > 0 && front.last() == chunks[i]);
    } else {
        lemma_tiles_step(front, from, chunks.last().0 as int, i);
        assert(front[i] == chunks[i] && front[i + 1] == chunks[i + 1]);
    }
}

/// The cached file once `pieces` have been stored in order, each where its chunk
/// begins, for the first `n` chunks.
pub open spec fn stored_upto(
    cached: Seq<u8>,
    chunks: Seq<Chunk>,
    pieces: Seq<Seq<u8>>,
    n: int,
) -> Seq<u8>
    decreases n,
{
    if n <= 0 {
        cached
    } else {
        overwritten(
            stored_upto(cached, chunks, pieces, n - 1),
            chunks[n - 1].0 as int,
            pieces[n - 1],
        )
    }
}

/// Where the chunks before the one at `n` end.
proof fn lemma_tiles_upto(chunks: Seq<Chunk>, from: int, to: int, n: int)
    requires
        tiles(chunks, from, to),
        0 <= n < chunks.len(),
    ensures
        tiles(chunks.take(n), from, chunks[n].0 as int),
        chunks[n].0 + chunks[n].1 <= to,
        chunks[n].1 > 0,
    decreases chunks.len(),
{
    let front = chunks.drop_last();
    if n == chunks.len() - 1 {
        assert(chunks.take(n) =~= front);
    } else {
        lemma_tiles_upto(front, from, chunks.last().0 as int, n);
        assert(front.take(n) =~= chunks.take(n));
        assert(front[n] == chunks[n]);
    }
}

/// Storing what came of the chunks of a prefetch in order keeps the cached file
/// a prefix of the remote one at every moment; after the first `n` of them it
/// reaches at least to where the next begins, so there is never a hole. `size`
/// is what the file was thought to hold: it may have shrunk since.
pub proof fn lemma_prefetch_in_order_leaves_no_hole(
    cached: Seq<u8>,
    remote: Seq<u8>,
    size: int,
    chunks: Seq<Chunk>,
    pieces: Seq<Seq<u8>>,
    n: int,
)
    requires
        is_prefix(cached, remote),
        tiles(chunks, cached.len() as int, size),
        0 <= n <= chunks.len(),
        n <= pieces.len(),
        forall|i: int|
            0 <= i < n ==> are_from(#[trigger] pieces[i], remote, chunks[i].0 as int)
                && leaves_no_hole(
                pieces[i].len() as int,
                chunks[i].1 as int,
                i == chunks.len() - 1,
            ),
    ensures
        is_prefix(stored_upto(cached, chunks, pieces, n), remote),
        stored_upto(cached, chunks, pieces, n).len() >= cached.len(),
        n < chunks.len() ==> stored_upto(cached, chunks, pieces, n).len() >= chunks[n].0,
    decreases n,
{
    let from = cached.len() as int;
    if n == 0 {
        if chunks.len() > 0 {
            lemma_tiles_upto(chunks, from, size, 0);
            assert(chunks.take(0) =~= Seq::<Chunk>::empty());
        }
    } else {
        lemma_prefetch_in_order_leaves_no_hole(cached, remote, size, chunks, pieces, n - 1);
        let before = stored_upto(cached, chunks, pieces, n - 1);
        let c = chunks[n - 1];
        let piece = pieces[n - 1];
        assert(are_from(piece, remote, c.0 as int));
        lemma_store_keeps_prefix(before, remote, c.0 as int, piece);
        if n < chunks.len() {
            lemma_tiles_step(chunks, from, size, n - 1);
        }
    }
}

// ---------------------------------------------------------------------------
// Mirroring a file
// ---------------------------------------------------------------------------

/// What the mirroring of a file does next.
#[derive(Clone, Copy, PartialEq, Eq, Structural, Debug)]
pub enum MirrorStep {
    /// The file is empty: create it in its place.
    CreateEmpty,
    /// Begin to fetch this chunk into the temporary file, and go on.
    Fetch { start: u64, limit: u64 },
    /// Wait for one of the fetches.
    Await,
    /// The file is complete: put it in its place.
    Commit,
    /// Something failed: remove the temporary file.
    Discard,
}

/// A file that is being fetched into a temporary file, with a bounded window
/// of concurrent fetches.
pub struct Mirror {
    total: u64,
    offset: u64,
    in_flight: usize,
    failed: bool,
    begun: Ghost<Seq<Chunk>>,
    landed: Ghost<nat>,
}

/// The mirroring of a file, as a mathematical value.
#[verifier::ext_equal]
pub struct MirrorView {
    pub total: u64,
    pub offset: u64,
    pub in_flight: nat,
    pub failed: bool,
    /// The chunks that have been begun.
    pub begun: Seq<Chunk>,
    /// How many of them have been fetched and stored, without a hole.
    pub landed: nat,
}

impl View for Mirror {
    type V = MirrorView;

    closed spec fn view(&self) -> MirrorView {
        MirrorView {
            total: self.total,
            offset: self.offset,
            in_flight: self.in_flight as nat,
            failed: self.failed,
            begun: self.begun@,
            landed: self.landed@,
        }
    }
}

impl MirrorView {
    /// What always holds: what has been begun tiles the file up to `offset`, at
    /// most the window is in flight, and unless something failed every chunk
    /// is in flight or has landed.
    pub open spec fn inv(self) -> bool {
        &&& self.offset <= self.total
        &&& self.in_flight <= SYNC_INFLIGHT
        &&& tiles(self.begun, 0, self.offset as int)
        &&& are_bounded(self.begun, SYNC_CHUNK)
        &&& self.landed + self.in_flight <= self.begun.len()
        &&& !self.failed ==> self.landed + self.in_flight == self.begun.len()
    }

    /// The next step: fetch while there is room, wait for what is in flight,
    /// and at the end commit unless something failed. An empty file needs no
    /// fetch.
    pub open spec fn step(self) -> MirrorStep {
        if self.total == 0 {
            MirrorStep::CreateEmpty
        } else if !self.failed && self.offset < self.total && self.in_flight < SYNC_INFLIGHT {
            MirrorStep::Fetch { start: self.offset, limit: self.limit_at(self.offset) as u64 }
        } else if self.in_flight > 0 {
            MirrorStep::Await
        } else if self.failed {
            MirrorStep::Discard
        } else {
            MirrorStep::Commit
        }
    }

    /// The mirroring once its step has been taken.
    pub open spec fn stepped(self) -> MirrorView {
        match self.step() {
            MirrorStep::Fetch { start, limit } => MirrorView {
                offset: (start + limit) as u64,
                in_flight: self.in_flight + 1,
                begun: self.begun.push((start, limit)),
                ..self
            },
            _ => self,
        }
    }

    /// How many bytes the chunk that begins at `start` has.
    pub open spec fn limit_at(self, start: u64) -> int {
        least(self.total - start, SYNC_CHUNK as int)
    }

    /// The mirroring once the fetch of the chunk at `start` has ended, of which
    /// `stored` bytes were stored: it has failed where that leaves a hole.
    pub open spec fn ended(self, start: u64, stored: u64) -> MirrorView {
        let ok = start < self.total && leaves_no_hole(
            stored as int,
            self.limit_at(start),
            start + self.limit_at(start) == self.total,
        );
        MirrorView {
            in_flight: (self.in_flight - 1) as nat,
            failed: self.failed || !ok,
            landed: if ok {
                self.landed + 1
            } else {
                self.landed
            },
            ..self
        }
    }
}

impl Mirror {
    /// Nothing has been fetched of a file of `total` bytes.
    pub fn download_to_cache(total: u64) -> (res: Self)
        ensures
            res@.inv(),
            res@ == (MirrorView {
                total,
                offset: 0,
                in_flight: 0,
                failed: false,
                begun: Seq::empty(),
                landed: 0,
            }),
    {
        Mirror {
            total,
            offset: 0,
            in_flight: 0,
            failed: false,
            begun: Ghost(Seq::empty()),
            landed: Ghost(0),
        }
    }

    /// The next step.
    pub fn next(&mut self) -> (res: MirrorStep)
        requires
            old(self)@.inv(),
        ensures
            final(self)@.inv(),
            res == old(self)@.step(),
            final(self)@ == old(self)@.stepped(),
            res == MirrorStep::CreateEmpty <==> old(self)@.total == 0,
            res == MirrorStep::Commit ==> !old(self)@.failed && old(self)@.in_flight == 0
                && old(self)@.offset == old(self)@.total && old(self)@.landed == old(
                self,
            )@.begun.len(),
            res == MirrorStep::Discard ==> old(self)@.failed && old(self)@.in_flight == 0,
            res is Fetch <==> old(self)@.total > 0 && !old(self)@.failed && old(self)@.offset < old(
                self,
            )@.total && old(self)@.in_flight < 8,
            res matches MirrorStep::Fetch { start, limit } ==> start == old(self)@.offset && limit
                > 0 && limit <= 1024 * 1024 && (limit == 1024 * 1024 || start + limit == old(
                self,
            )@.total) && start + limit <= old(self)@.total,
    {
        if self.total == 0 {
            MirrorStep::CreateEmpty
        } else if !self.failed && self.offset < self.total && self.in_flight < SYNC_INFLIGHT {
            let start = self.offset;
            let rest: u64 = self.total - start;
            let limit: u64 = if rest < SYNC_CHUNK {
                rest
            } else {
                SYNC_CHUNK
            };
            let ghost before = self.begun@;
            proof {
                lemma_tiles_push(before, 0, start as int, limit);
            }
            self.offset = start + limit;
            self.in_flight = self.in_flight + 1;
            self.begun = Ghost(self.begun@.push((start, limit)));
            MirrorStep::Fetch { start, limit }
        } else if self.in_flight > 0 {
            MirrorStep::Await
        } else if self.failed {
            MirrorStep::Discard
        } else {
            MirrorStep::Commit
        }
    }

    /// The fetch of the chunk at `start` has ended: `stored` of its bytes have
    /// been stored.
    pub fn ended(&mut self, start: u64, stored: u64)
        requires
            old(self)@.inv(),
            old(self)@.in_flight > 0,
        ensures
            final(self)@.inv(),
            final(self)@ == old(self)@.ended(start, stored),
            final(self)@.in_flight == old(self)@.in_flight - 1,
            final(self)@.failed <==> old(self)@.failed || start >= old(self)@.total || stored == 0
                || stored < 1024 * 1024 && old(self)@.total - start > 1024 * 1024,
            final(self)@.offset == old(self)@.offset && final(self)@.total == old(self)@.total,
    {
        self.in_flight = self.in_flight - 1;
        let whole = if start < self.total {
            let rest: u64 = self.total - start;
            stored > 0 && (rest <= SYNC_CHUNK || stored >= SYNC_CHUNK)
        } else {
            false
        };
        if whole {
            self.landed = Ghost(self.landed@ + 1);
        } else {
            self.failed = true;
        }
    }
}

/// A mirrored file takes its place only when every one of its chunks has been
/// fetched and stored, and the chunks make up the whole file. A chunk before the
/// last of which fewer bytes were stored than it has, and any chunk of which
/// none were, fails the mirroring for good.
pub proof fn lemma_mirror_commits_whole_files(m: MirrorView, start: u64, stored: u64)
    requires
        m.inv(),
    ensures
        m.step() == MirrorStep::Commit ==> {
            &&& tiles(m.begun, 0, m.total as int)
            &&& m.landed == m.begun.len()
            &&& !m.failed
        },
        start + m.limit_at(start) < m.total && stored < m.limit_at(start) ==> m.ended(
            start,
            stored,
        ).failed,
        stored == 0 ==> m.ended(start, stored).failed,
        m.failed ==> m.step() != MirrorStep::Commit && m.stepped().failed && m.ended(
            start,
            stored,
        ).failed,
{
}

/// The temporary path beside a cached file.
pub open spec fn mirror_temp(local: Seq<char>, nonce: u32) -> Seq<char> {
    extended(local, "tmp-"@ + hex_fixed(nonce as nat, 8))
}

/// The temporary path beside a cached file, told apart from others by `nonce`.
pub fn numbered_temp(local: &str, nonce: u32) -> (res: String)
    ensures
        res@ == mirror_temp(local@, nonce),
        res@ == extended(local@, "tmp-"@ + hex_fixed(nonce as nat, 8)),
{
    let mut extension = "tmp-".to_owned();
    push_hex(&mut extension, nonce as u64, 8);
    proof {
        reveal_strlit("tmp-");
    }
    with_extension(local, extension.as_str())
}

/// A temporary path beside a cached file, with a random number.
pub fn temp_path(local: &str) -> (res: String)
    ensures
        exists|nonce: u32| #[trigger] mirror_temp(local@, nonce) == res@,
{
    numbered_temp(local, crate::random::random_u32())
}

/// The message for a file that could not be mirrored.
pub fn interrupted(remote: &str) -> (res: String)
    ensures
        res@ == "download of "@ + remote@ + " interrupted"@,
{
    let mut message = "download of ".to_owned();
    message.append(remote);
    message.append(" interrupted");
    message
}

// ---------------------------------------------------------------------------
// Mirroring a folder
// ---------------------------------------------------------------------------

/// A folder of the target and the folder that mirrors it.
pub struct FolderView {
    pub remote: Seq<char>,
    pub local: Seq<char>,
}

/// A file of the target and the file that mirrors it.
#[derive(Debug)]
pub struct Wanted {
    pub remote: String,
    pub local: String,
    pub size: u64,
}

/// Folders that are still to be mirrored.
#[derive(Debug)]
pub struct FolderSync {
    queue: Vec<(String, String)>,
}

impl View for FolderSync {
    type V = Seq<FolderView>;

    closed spec fn view(&self) -> Seq<FolderView> {
        self.queue@.map_values(|f: (String, String)| FolderView { remote: f.0@, local: f.1@ })
    }
}

/// The path of an entry on the target.
pub open spec fn child_remote(dir: Seq<char>, name: Seq<char>) -> Seq<char> {
    without_trailing(dir, '/') + "/"@ + name
}

impl FolderSync {
    /// One folder is to be mirrored, with all below it.
    pub fn background_sync_folder(remote_dir: &str, cache_dir: &str) -> (res: Self)
        ensures
            res@ == seq![FolderView { remote: remote_dir@, local: cache_dir@ }],
    {
        let mut queue: Vec<(String, String)> = Vec::new();
        queue.push((remote_dir.to_owned(), cache_dir.to_owned()));
        let res = FolderSync { queue };
        assert(res@ =~= seq![FolderView { remote: remote_dir@, local: cache_dir@ }]);
        res
    }

    /// The folder to list next; the one that was found last comes first.
    pub fn next(&mut self) -> (res: Option<(String, String)>)
        ensures
            match res {
                Some((remote, local)) => {
                    &&& old(self)@.len() > 0
                    &&& old(self)@.last() == (FolderView { remote: remote@, local: local@ })
                    &&& final(self)@ == old(self)@.drop_last()
                },
                None => old(self)@.len() == 0 && final(self)@ == old(self)@,
            },
    {
        let ghost before = self@;
        match self.queue.pop() {
            Some(f) => {
                assert(self@ =~= before.drop_last());
                Some(f)
            },
            None => None,
        }
    }

    /// The target cannot be listed: nothing more is mirrored.
    pub fn stop(&mut self)
        ensures
            final(self)@ == Seq::<FolderView>::empty(),
    {
        self.queue = Vec::new();
        assert(self@ =~= Seq::<FolderView>::empty());
    }

    /// An entry of the folder `remote`, which is mirrored at `local`: a folder
    /// is mirrored later, a file is returned, and anything else is passed over.
    pub fn entry(&mut self, remote: &str, local: &str, entry: &DirEntry) -> (res: Option<Wanted>)
        ensures
            final(self)@ == (if entry.kind == FileKind::Dir {
                old(self)@.push(
                    FolderView {
                        remote: child_remote(remote@, entry.name@),
                        local: joined_path(local@, entry.name@),
                    },
                )
            } else {
                old(self)@
            }),
            match res {
                Some(w) => {
                    &&& entry.kind == FileKind::File
                    &&& w.remote@ == child_remote(remote@, entry.name@)
                    &&& w.local@ == joined_path(local@, entry.name@)
                    &&& w.size == entry.size
                },
                None => entry.kind != FileKind::File,
            },
            res matches Some(w) ==> w.remote@ == without_trailing(remote@, '/') + "/"@
                + entry.name@,
            entry.kind == FileKind::Dir ==> final(self)@.last().remote == without_trailing(
                remote@,
                '/',
            ) + "/"@ + entry.name@ && final(self)@.last().local == joined_path(
                local@,
                entry.name@,
            ),
    {
        let ghost before = self@;
        let mut child = trim_end_char(remote, '/');
        child.append("/");
        child.append(entry.name.as_str());
        let place = join_path(local, entry.name.as_str());
        match entry.kind {
            FileKind::Dir => {
                self.queue.push((child, place));
                assert(self@ =~= before.push(
                    FolderView {
                        remote: child_remote(remote@, entry.name@),
                        local: joined_path(local@, entry.name@),
                    },
                ));
                None
            },
            FileKind::File => Some(Wanted { remote: child, local: place, size: entry.size }),
            _ => None,
        }
    }
}

/// Whether a file is to be fetched, given the length of what is cached: a file
/// with the right length is taken to be right.
pub fn is_wanted(size: u64, cached: Option<u64>) -> (res: bool)
    ensures
        res == (cached != Some(size)),
{
    match cached {
        Some(len) => len != size,
        None => true,
    }
}

// ---------------------------------------------------------------------------
// Where the cache is
// ---------------------------------------------------------------------------

/// The directory that holds the caches of all mounts.
pub open spec fn cache_base(
    chosen: Option<Seq<char>>,
    home: Option<Seq<char>>,
    temp: Seq<char>,
) -> Seq<char> {
    match chosen {
        Some(dir) => dir,
        None => match home {
            Some(home) => joined_path(
                joined_path(joined_path(home, ".cache"@), "relayfs"@),
                "mounts"@,
            ),
            None => joined_path(temp, "relayfs-mounts"@),
        },
    }
}

/// The number of a mount: the hash of its remote directory and its mount point,
/// each as the text's own hash feeds it, with a byte behind it.
pub open spec fn mount_number(remote_dir: Seq<char>, mount_point: Seq<char>) -> u64 {
    DefaultHasher::spec_finish(
        seq![encode_utf8(remote_dir), seq![255u8], encode_utf8(mount_point), seq![255u8]],
    )
}

/// The number of a mount.
fn hash_of(remote_dir: &str, mount_point: &str) -> (res: u64)
    ensures
        res == mount_number(remote_dir@, mount_point@),
{
    let end: [u8; 1] = [255];
    let mut hasher = DefaultHasher::new();
    hasher.write(remote_dir.as_bytes());
    hasher.write(&end);
    hasher.write(mount_point.as_bytes());
    hasher.write(&end);
    assert(end@ =~= seq![255u8]);
    assert(hasher@ =~= seq![
        encode_utf8(remote_dir@),
        seq![255u8],
        encode_utf8(mount_point@),
        seq![255u8],
    ]);
    hasher.finish()
}

/// The persistent local backing cache directory of a mount. `chosen` is the
/// directory that the user has set for caches, `home` the user's own, and `temp`
/// the one for temporary files.
pub fn get_cache_dir(
    remote_dir: &str,
    mount_point: &str,
    chosen: Option<&str>,
    home: Option<&str>,
    temp: &str,
) -> (res: String)
    ensures
        res@ == joined_path(
            cache_base(opt_str(chosen), opt_str(home), temp@),
            hex_fixed(mount_number(remote_dir@, mount_point@) as nat, 16),
        ),
        chosen is Some ==> res@ == joined_path(
            chosen->0@,
            hex_fixed(mount_number(remote_dir@, mount_point@) as nat, 16),
        ),
        mount_number(remote_dir@, mount_point@) == DefaultHasher::spec_finish(
            seq![
                encode_utf8(remote_dir@),
                seq![255u8],
                encode_utf8(mount_point@),
                seq![255u8],
            ],
        ),
{
    numbered_cache_dir(hash_of(remote_dir, mount_point), chosen, home, temp)
}

/// The cache directory of the mount with the number `hash`.
pub fn numbered_cache_dir(
    hash: u64,
    chosen: Option<&str>,
    home: Option<&str>,
    temp: &str,
) -> (res: String)
    ensures
        res@ == joined_path(
            cache_base(opt_str(chosen), opt_str(home), temp@),
            hex_fixed(hash as nat, 16),
        ),
        chosen is Some ==> res@ == joined_path(chosen->0@, hex_fixed(hash as nat, 16)),
        chosen is None && home is Some ==> res@ == joined_path(
            joined_path(joined_path(joined_path(home->0@, ".cache"@), "relayfs"@), "mounts"@),
            hex_fixed(hash as nat, 16),
        ),
        chosen is None && home is None ==> res@ == joined_path(
            joined_path(temp@, "relayfs-mounts"@),
            hex_fixed(hash as nat, 16),
        ),
{
    let base = match chosen {
        Some(dir) => dir.to_owned(),
        None => match home {
            Some(home) => {
                let dir = join_path(home, ".cache");
                let dir = join_path(dir.as_str(), "relayfs");
                join_path(dir.as_str(), "mounts")
            },
            None => join_path(temp, "relayfs-mounts"),
        },
    };
    let mut name = String::new();
    push_hex(&mut name, hash, 16);
    assert(name@ =~= hex_fixed(hash as nat, 16));
    join_path(base.as_str(), name.as_str())
}

} // verus!
