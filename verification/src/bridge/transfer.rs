//! Uploads and downloads of whole files, in bounded chunks.
//!
//! A transfer is a machine that is told how its last step went and says which
//! step comes next. Its destination is replaced only by the complete file: the
//! bytes go to a temporary file beside it, which is renamed at the end.

use vstd::prelude::*;

use crate::bridge::cache::part;
use crate::bridge::mcp::{
    empty_file_params, read_params, read_view, remove_params, remove_view, rename_params,
    rename_view, truncate_params, truncate_view, write_at_params, write_at_view, write_view,
    DownloadFileArgs, UploadFileArgs,
};
use crate::encoding::{base64_bytes, base64_decode, base64_text, decodes_to};
use crate::json::{
    json_text, json_view, new_object, of_u64, opt_bool, put, render, unsigned, JsonView,
};
use crate::path::{
    components_of, file_name, file_name_of, is_single, join_path, joined_path, parent,
    parent_of,
};
use crate::protocol::encode::no_members;
use crate::protocol::{method, ReadFileResult};
use crate::random::random_u64;
use crate::text::{hex_fixed, push_hex, text_or_empty};

verus! {

/// Bytes moved at a time.
pub const TRANSFER_CHUNK_BYTES: usize = 1024 * 1024;

/// What stands before the reason why a chunk could not be decoded.
pub const BAD_CHUNK: &'static str = "invalid base64 returned by target: ";

// ---------------------------------------------------------------------------
// Temporary names
// ---------------------------------------------------------------------------

/// The name of a temporary file beside the file `name`.
pub open spec fn temporary_name(name: Seq<char>, label: Seq<char>, nonce: u64) -> Seq<char> {
    "."@ + name + ".relayfs-"@ + label + "-"@ + hex_fixed(nonce as nat, 16)
}

/// A path in the directory of `path`.
pub open spec fn temporary_at(path: Seq<char>, label: Seq<char>, nonce: u64) -> Seq<char> {
    let dir = match parent_of(path) {
        Some(dir) => dir,
        None => "."@,
    };
    let name = match file_name_of(path) {
        Some(name) => name,
        None => Seq::empty(),
    };
    joined_path(dir, temporary_name(name, label, nonce))
}

/// A path in the directory of `path`, told apart from others by `nonce`.
pub fn numbered_path(path: &str, label: &str, nonce: u64) -> (res: String)
    ensures
        res@ == temporary_at(path@, label@, nonce),
        parent_of(path@) is Some && file_name_of(path@) is Some ==> res@ == joined_path(
            parent_of(path@)->0,
            "."@ + file_name_of(path@)->0 + ".relayfs-"@ + label@ + "-"@ + hex_fixed(
                nonce as nat,
                16,
            ),
        ),
{
    let dir = match parent(path) {
        Some(dir) => dir,
        None => ".".to_owned(),
    };
    let mut name = ".".to_owned();
    name.append(text_or_empty(&file_name(path)).as_str());
    name.append(".relayfs-");
    name.append(label);
    name.append("-");
    push_hex(&mut name, nonce, 16);
    let res = join_path(dir.as_str(), name.as_str());
    res
}

/// A path in the directory of `path`, different each time.
pub fn temporary_path(path: &str, label: &str) -> (res: String)
    ensures
        exists|nonce: u64| #[trigger] temporary_at(path@, label@, nonce) == res@,
{
    numbered_path(path, label, random_u64())
}

/// The path beside a remote file to which its bytes are uploaded.
pub open spec fn upload_temp(remote: Seq<char>, nonce: u64) -> Seq<char> {
    remote + ".relayfs-upload-"@ + hex_fixed(nonce as nat, 16)
}

// ---------------------------------------------------------------------------
// Steps
// ---------------------------------------------------------------------------

/// A call to the target.
#[derive(Debug)]
pub enum RemoteCall {
    /// Create the file, or empty it.
    Create { path: String, create_dirs: Option<bool> },
    WriteAt { path: String, offset: u64, bytes: Vec<u8> },
    Truncate { path: String, size: u64 },
    Rename { from: String, to: String },
    Remove { path: String },
    Read { path: String, offset: u64, limit: u64 },
}

/// A call to the target, as a mathematical value.
pub enum CallView {
    Create { path: Seq<char>, create_dirs: Option<bool> },
    WriteAt { path: Seq<char>, offset: u64, bytes: Seq<u8> },
    Truncate { path: Seq<char>, size: u64 },
    Rename { from: Seq<char>, to: Seq<char> },
    Remove { path: Seq<char> },
    Read { path: Seq<char>, offset: u64, limit: u64 },
}

impl View for RemoteCall {
    type V = CallView;

    open spec fn view(&self) -> CallView {
        match self {
            RemoteCall::Create { path, create_dirs } => CallView::Create {
                path: path@,
                create_dirs: *create_dirs,
            },
            RemoteCall::WriteAt { path, offset, bytes } => CallView::WriteAt {
                path: path@,
                offset: *offset,
                bytes: bytes@,
            },
            RemoteCall::Truncate { path, size } => CallView::Truncate { path: path@, size: *size },
            RemoteCall::Rename { from, to } => CallView::Rename { from: from@, to: to@ },
            RemoteCall::Remove { path } => CallView::Remove { path: path@ },
            RemoteCall::Read { path, offset, limit } => CallView::Read {
                path: path@,
                offset: *offset,
                limit: *limit,
            },
        }
    }
}

impl CallView {
    /// The method that is called.
    pub open spec fn method(self) -> Seq<char> {
        match self {
            CallView::Create { .. } => method::WRITE_FILE@,
            CallView::WriteAt { .. } => method::WRITE_AT@,
            CallView::Truncate { .. } => method::TRUNCATE@,
            CallView::Rename { .. } => method::RENAME@,
            CallView::Remove { .. } => method::REMOVE@,
            CallView::Read { .. } => method::READ_FILE@,
        }
    }

    /// The params it is called with.
    pub open spec fn params(self) -> JsonView {
        match self {
            CallView::Create { path, create_dirs } => write_view(path, ""@, opt_bool(create_dirs)),
            CallView::WriteAt { path, offset, bytes } => write_at_view(
                path,
                offset,
                base64_text(bytes),
            ),
            CallView::Truncate { path, size } => truncate_view(path, size),
            CallView::Rename { from, to } => rename_view(from, to),
            CallView::Remove { path } => remove_view(path, Some(false)),
            CallView::Read { path, offset, limit } => read_view(
                path,
                unsigned(offset),
                unsigned(limit),
            ),
        }
    }
}

impl RemoteCall {
    /// The method to call and its params.
    pub fn request(&self) -> (res: (&'static str, serde_json::Value))
        ensures
            res.0@ == self@.method(),
            json_view(res.1) == self@.params(),
            match self@ {
                CallView::Create { path, create_dirs } => res.0@ == "write_file"@ && json_view(
                    res.1,
                ) == JsonView::Object(
                    map![
                        "path"@ => JsonView::Text(path),
                        "data"@ => JsonView::Text(""@),
                        "create_dirs"@ => opt_bool(create_dirs),
                    ],
                ),
                CallView::WriteAt { path, offset, bytes } => res.0@ == "write_at"@ && json_view(
                    res.1,
                ) == JsonView::Object(
                    map![
                        "path"@ => JsonView::Text(path),
                        "offset"@ => unsigned(offset),
                        "data"@ => JsonView::Text(base64_text(bytes)),
                    ],
                ),
                CallView::Truncate { path, size } => res.0@ == "truncate"@ && json_view(res.1)
                    == JsonView::Object(
                    map!["path"@ => JsonView::Text(path), "size"@ => unsigned(size)],
                ),
                CallView::Rename { from, to } => res.0@ == "rename"@ && json_view(res.1)
                    == JsonView::Object(
                    map!["from"@ => JsonView::Text(from), "to"@ => JsonView::Text(to)],
                ),
                CallView::Remove { path } => res.0@ == "remove"@ && json_view(res.1)
                    == JsonView::Object(
                    map!["path"@ => JsonView::Text(path), "recursive"@ => JsonView::Bool(false)],
                ),
                CallView::Read { path, offset, limit } => res.0@ == "read_file"@ && json_view(
                    res.1,
                ) == JsonView::Object(
                    map![
                        "path"@ => JsonView::Text(path),
                        "offset"@ => unsigned(offset),
                        "limit"@ => unsigned(limit),
                    ],
                ),
            },
    {
        match self {
            RemoteCall::Create { path, create_dirs } => (
                method::WRITE_FILE,
                empty_file_params(path.as_str(), *create_dirs),
            ),
            RemoteCall::WriteAt { path, offset, bytes } => (
                method::WRITE_AT,
                write_at_params(path.as_str(), *offset, bytes.as_slice()),
            ),
            RemoteCall::Truncate { path, size } => (
                method::TRUNCATE,
                truncate_params(path.as_str(), *size),
            ),
            RemoteCall::Rename { from, to } => (
                method::RENAME,
                rename_params(from.as_str(), to.as_str()),
            ),
            RemoteCall::Remove { path } => (
                method::REMOVE,
                remove_params(path.as_str(), Some(false)),
            ),
            RemoteCall::Read { path, offset, limit } => (
                method::READ_FILE,
                read_params(path.as_str(), *offset, *limit),
            ),
        }
    }
}

/// What is to be done next.
#[derive(Debug)]
pub enum Step {
    OpenSource { path: String },
    /// Read at most `TRANSFER_CHUNK_BYTES` bytes of the source.
    ReadSource,
    MakeDir { path: String },
    CreateLocal { path: String },
    AppendLocal { path: String, bytes: Vec<u8> },
    SyncLocal { path: String },
    RenameLocal { from: String, to: String },
    RemoveLocal { path: String },
    Call { call: RemoteCall },
    /// The transfer is over: what is reported, or why it failed.
    Finish { result: Result<String, String> },
}

/// What is to be done next, as a mathematical value.
pub enum StepView {
    OpenSource { path: Seq<char> },
    ReadSource,
    MakeDir { path: Seq<char> },
    CreateLocal { path: Seq<char> },
    AppendLocal { path: Seq<char>, bytes: Seq<u8> },
    SyncLocal { path: Seq<char> },
    RenameLocal { from: Seq<char>, to: Seq<char> },
    RemoveLocal { path: Seq<char> },
    Call { call: CallView },
    Finish { result: Result<Seq<char>, Seq<char>> },
}

impl View for Step {
    type V = StepView;

    open spec fn view(&self) -> StepView {
        match self {
            Step::OpenSource { path } => StepView::OpenSource { path: path@ },
            Step::ReadSource => StepView::ReadSource,
            Step::MakeDir { path } => StepView::MakeDir { path: path@ },
            Step::CreateLocal { path } => StepView::CreateLocal { path: path@ },
            Step::AppendLocal { path, bytes } => StepView::AppendLocal {
                path: path@,
                bytes: bytes@,
            },
            Step::SyncLocal { path } => StepView::SyncLocal { path: path@ },
            Step::RenameLocal { from, to } => StepView::RenameLocal { from: from@, to: to@ },
            Step::RemoveLocal { path } => StepView::RemoveLocal { path: path@ },
            Step::Call { call } => StepView::Call { call: call@ },
            Step::Finish { result } => StepView::Finish { result: report(*result) },
        }
    }
}

/// What is reported of a transfer.
pub open spec fn report(r: Result<String, String>) -> Result<Seq<char>, Seq<char>> {
    match r {
        Ok(t) => Ok(t@),
        Err(e) => Err(e@),
    }
}

/// How a step went.
#[derive(Debug)]
pub enum Outcome {
    Done,
    /// Bytes of the source; none at its end.
    Bytes(Vec<u8>),
    /// The answer to a read.
    Chunk(ReadFileResult),
    /// Why it failed.
    Failed(String),
}

/// How a step went, as a mathematical value.
pub enum OutcomeView {
    Done,
    Bytes(Seq<u8>),
    Chunk { data: Seq<char>, eof: bool },
    Failed(Seq<char>),
}

impl View for Outcome {
    type V = OutcomeView;

    open spec fn view(&self) -> OutcomeView {
        match self {
            Outcome::Done => OutcomeView::Done,
            Outcome::Bytes(bytes) => OutcomeView::Bytes(bytes@),
            Outcome::Chunk(r) => OutcomeView::Chunk { data: r.data@, eof: r.eof },
            Outcome::Failed(e) => OutcomeView::Failed(e@),
        }
    }
}

/// What could not be done to which path, and why.
pub open spec fn complaint(what: Seq<char>, path: Seq<char>, why: Seq<char>) -> Seq<char> {
    what + path + ": "@ + why
}

fn complain(what: &str, path: &str, why: &str) -> (res: String)
    ensures
        res@ == complaint(what@, path@, why@),
        res@ == what@ + path@ + ": "@ + why@,
{
    let mut message = what.to_owned();
    message.append(path);
    message.append(": ");
    message.append(why);
    message
}

/// What is reported of a transfer of `bytes` bytes.
pub open spec fn count_text(key: Seq<char>, bytes: u64) -> Seq<char> {
    json_text(JsonView::Object(no_members().insert(key, unsigned(bytes))))
}

fn report_count(key: &str, bytes: u64) -> (res: String)
    ensures
        res@ == count_text(key@, bytes),
        res@ == json_text(JsonView::Object(map![key@ => unsigned(bytes)])),
{
    let mut v = new_object();
    put(&mut v, key, of_u64(bytes));
    render(&v)
}

// ---------------------------------------------------------------------------
// Upload
// ---------------------------------------------------------------------------

/// Where an upload stands: what was begun last.
#[derive(Debug)]
pub enum UploadStage {
    Opening,
    Creating,
    Reading,
    Writing,
    Truncating,
    Renaming,
    /// The temporary file is being removed; the upload has failed.
    Cleaning { error: String },
    Finished,
}

/// Where an upload stands, as a mathematical value.
pub enum UploadStageView {
    Opening,
    Creating,
    Reading,
    Writing,
    Truncating,
    Renaming,
    Cleaning { error: Seq<char> },
    Finished,
}

/// An upload of a local file.
pub struct Upload {
    local: String,
    remote: String,
    temp: String,
    create_dirs: Option<bool>,
    /// Bytes that the target has taken.
    offset: u64,
    /// Length of the chunk that is being written.
    chunk_len: u64,
    stage: UploadStage,
    sent: Ghost<Seq<u8>>,
    chunk: Ghost<Seq<u8>>,
}

/// An upload, as a mathematical value.
#[verifier::ext_equal]
pub struct UploadView {
    pub local: Seq<char>,
    pub remote: Seq<char>,
    pub temp: Seq<char>,
    pub create_dirs: Option<bool>,
    /// The bytes that the target has taken.
    pub sent: Seq<u8>,
    /// The bytes that are being written.
    pub chunk: Seq<u8>,
    pub stage: UploadStageView,
}

impl View for Upload {
    type V = UploadView;

    closed spec fn view(&self) -> UploadView {
        UploadView {
            local: self.local@,
            remote: self.remote@,
            temp: self.temp@,
            create_dirs: self.create_dirs,
            sent: self.sent@,
            chunk: self.chunk@,
            stage: match self.stage {
                UploadStage::Opening => UploadStageView::Opening,
                UploadStage::Creating => UploadStageView::Creating,
                UploadStage::Reading => UploadStageView::Reading,
                UploadStage::Writing => UploadStageView::Writing,
                UploadStage::Truncating => UploadStageView::Truncating,
                UploadStage::Renaming => UploadStageView::Renaming,
                UploadStage::Cleaning { error } => UploadStageView::Cleaning { error: error@ },
                UploadStage::Finished => UploadStageView::Finished,
            },
        }
    }
}

impl Upload {
    /// The counters are the lengths of what they count.
    pub closed spec fn inv(self) -> bool {
        self.offset == self.sent@.len() && self.chunk_len == self.chunk@.len()
    }
}

impl UploadView {
    /// The upload at another stage.
    pub open spec fn at(self, stage: UploadStageView) -> UploadView {
        UploadView { stage, ..self }
    }

    /// What the upload waits for at its stage.
    pub open spec fn step(self) -> StepView {
        let offset = self.sent.len() as u64;
        match self.stage {
            UploadStageView::Opening => StepView::OpenSource { path: self.local },
            UploadStageView::Creating => StepView::Call {
                call: CallView::Create { path: self.temp, create_dirs: self.create_dirs },
            },
            UploadStageView::Reading => StepView::ReadSource,
            UploadStageView::Writing => StepView::Call {
                call: CallView::WriteAt { path: self.temp, offset, bytes: self.chunk },
            },
            UploadStageView::Truncating => StepView::Call {
                call: CallView::Truncate { path: self.temp, size: offset },
            },
            UploadStageView::Renaming => StepView::Call {
                call: CallView::Rename { from: self.temp, to: self.remote },
            },
            UploadStageView::Cleaning { .. } => StepView::Call {
                call: CallView::Remove { path: self.temp },
            },
            UploadStageView::Finished => StepView::Finish {
                result: Ok(count_text("bytes_uploaded"@, offset)),
            },
        }
    }

    /// The upload once its step has gone as `how` says.
    pub open spec fn next(self, how: OutcomeView) -> UploadView {
        match how {
            OutcomeView::Failed(why) => match self.stage {
                UploadStageView::Opening => self.at(UploadStageView::Finished),
                UploadStageView::Reading => self.at(
                    UploadStageView::Cleaning {
                        error: complaint("read local source "@, self.local, why),
                    },
                ),
                UploadStageView::Cleaning { .. } => self.at(UploadStageView::Finished),
                UploadStageView::Finished => self,
                _ => self.at(UploadStageView::Cleaning { error: why }),
            },
            _ => match self.stage {
                UploadStageView::Opening => self.at(UploadStageView::Creating),
                UploadStageView::Creating => self.at(UploadStageView::Reading),
                UploadStageView::Reading => match how {
                    OutcomeView::Bytes(bytes) => if bytes.len() > 0 {
                        UploadView { chunk: bytes, stage: UploadStageView::Writing, ..self }
                    } else {
                        self.at(UploadStageView::Truncating)
                    },
                    _ => self.at(UploadStageView::Truncating),
                },
                UploadStageView::Writing => UploadView {
                    sent: self.sent + self.chunk,
                    chunk: Seq::empty(),
                    stage: UploadStageView::Reading,
                    ..self
                },
                UploadStageView::Truncating => self.at(UploadStageView::Renaming),
                UploadStageView::Renaming => self.at(UploadStageView::Finished),
                UploadStageView::Cleaning { .. } => self.at(UploadStageView::Finished),
                UploadStageView::Finished => self,
            },
        }
    }

    /// The step that follows when the last one has gone as `how` says: a
    /// failure before anything was sent is reported at once, any other one
    /// after the temporary file has been removed.
    pub open spec fn reaction(self, how: OutcomeView) -> StepView {
        match (self.stage, how) {
            (UploadStageView::Opening, OutcomeView::Failed(why)) => StepView::Finish {
                result: Err(complaint("open local source "@, self.local, why)),
            },
            (UploadStageView::Cleaning { error }, _) => StepView::Finish { result: Err(error) },
            _ => self.next(how).step(),
        }
    }
}

impl Upload {
    /// An upload, and its first step. `nonce` tells its temporary file apart
    /// from others.
    pub fn new(args: &UploadFileArgs, nonce: u64) -> (res: (Self, Step))
        ensures
            res.0.inv(),
            res.0@ == (UploadView {
                local: args.local_path@,
                remote: args.remote_path@,
                temp: upload_temp(args.remote_path@, nonce),
                create_dirs: args.create_dirs,
                sent: Seq::empty(),
                chunk: Seq::empty(),
                stage: UploadStageView::Opening,
            }),
            res.1@ == res.0@.step(),
            res.1@ == (StepView::OpenSource { path: args.local_path@ }),
            res.0@.temp == args.remote_path@ + ".relayfs-upload-"@ + hex_fixed(nonce as nat, 16),
    {
        let mut temp = args.remote_path.clone();
        temp.append(".relayfs-upload-");
        push_hex(&mut temp, nonce, 16);
        let upload = Upload {
            local: args.local_path.clone(),
            remote: args.remote_path.clone(),
            temp,
            create_dirs: args.create_dirs,
            offset: 0,
            chunk_len: 0,
            stage: UploadStage::Opening,
            sent: Ghost(Seq::empty()),
            chunk: Ghost(Seq::empty()),
        };
        (upload, Step::OpenSource { path: args.local_path.clone() })
    }

    /// An upload with a random temporary name, and its first step.
    pub fn upload_file(args: &UploadFileArgs) -> (res: (Self, Step))
        ensures
            res.0.inv(),
            res.0@.local == args.local_path@,
            res.0@.remote == args.remote_path@,
            exists|nonce: u64| #[trigger] upload_temp(args.remote_path@, nonce) == res.0@.temp,
            res.0@.create_dirs == args.create_dirs,
            res.0@.sent == Seq::<u8>::empty(),
            res.0@.chunk == Seq::<u8>::empty(),
            res.0@.stage == UploadStageView::Opening,
            res.1@ == res.0@.step(),
    {
        Upload::new(args, random_u64())
    }

    /// How many more bytes can be counted.
    pub fn room(&self) -> (res: u64)
        requires
            self.inv(),
            self@.sent.len() + self@.chunk.len() <= u64::MAX,
        ensures
            res == u64::MAX - self@.sent.len() - self@.chunk.len(),
    {
        u64::MAX - self.offset - self.chunk_len
    }

    /// Begins to remove the temporary file.
    fn clean(&mut self, error: String) -> (res: Step)
        requires
            old(self).inv(),
        ensures
            final(self).inv(),
            final(self)@ == old(self)@.at(UploadStageView::Cleaning { error: error@ }),
            res@ == final(self)@.step(),
    {
        self.stage = UploadStage::Cleaning { error };
        Step::Call { call: RemoteCall::Remove { path: self.temp.clone() } }
    }

    /// The last step has gone as `how` says: the step that follows.
    pub fn next(&mut self, how: Outcome) -> (res: Step)
        requires
            old(self).inv(),
            !(old(self)@.stage is Finished),
            old(self)@.sent.len() + old(self)@.chunk.len() <= u64::MAX,
            how@ is Bytes ==> old(self)@.sent.len() + how@->Bytes_0.len() <= u64::MAX,
        ensures
            final(self).inv(),
            final(self)@ == old(self)@.next(how@),
            final(self)@.sent.len() + final(self)@.chunk.len() <= u64::MAX,
            res@ == old(self)@.reaction(how@),
            final(self)@.local == old(self)@.local,
            final(self)@.remote == old(self)@.remote,
            final(self)@.temp == old(self)@.temp,
            final(self)@.create_dirs == old(self)@.create_dirs,
            old(self)@.stage is Reading && how@ is Bytes && how@->Bytes_0.len() > 0 ==> final(self)@.chunk == how@->Bytes_0 && res@ == (StepView::Call {
                call: CallView::WriteAt {
                    path: old(self)@.temp,
                    offset: old(self)@.sent.len() as u64,
                    bytes: how@->Bytes_0,
                },
            }),
            old(self)@.stage is Writing && !(how@ is Failed) ==> final(self)@.sent == old(
                self,
            )@.sent + old(self)@.chunk,
    {
        let ghost before = self@;
        let mut stage = UploadStage::Finished;
        std::mem::swap(&mut stage, &mut self.stage);
        let failure = match &how {
            Outcome::Failed(why) => Some(why.clone()),
            _ => None,
        };
        if let Some(why) = failure {
            return match stage {
                UploadStage::Opening => Step::Finish {
                    result: Err(
                        complain("open local source ", self.local.as_str(), why.as_str()),
                    ),
                },
                UploadStage::Reading => {
                    let error = complain("read local source ", self.local.as_str(), why.as_str());
                    self.clean(error)
                },
                UploadStage::Cleaning { error } => Step::Finish { result: Err(error) },
                UploadStage::Finished => Step::Finish { result: Err(why) },
                _ => self.clean(why),
            };
        }
        match stage {
            UploadStage::Opening => {
                self.stage = UploadStage::Creating;
                Step::Call {
                    call: RemoteCall::Create {
                        path: self.temp.clone(),
                        create_dirs: self.create_dirs,
                    },
                }
            },
            UploadStage::Creating => {
                self.stage = UploadStage::Reading;
                Step::ReadSource
            },
            UploadStage::Reading => {
                if let Outcome::Bytes(bytes) = how {
                    if bytes.len() > 0 {
                        let n: usize = bytes.len();
                        self.chunk_len = n as u64;
                        self.chunk = Ghost(bytes@);
                        self.stage = UploadStage::Writing;
                        let call = RemoteCall::WriteAt {
                            path: self.temp.clone(),
                            offset: self.offset,
                            bytes,
                        };
                        return Step::Call { call };
                    }
                }
                self.stage = UploadStage::Truncating;
                Step::Call {
                    call: RemoteCall::Truncate { path: self.temp.clone(), size: self.offset },
                }
            },
            UploadStage::Writing => {
                self.offset = self.offset + self.chunk_len;
                self.sent = Ghost(self.sent@ + self.chunk@);
                self.chunk_len = 0;
                self.chunk = Ghost(Seq::empty());
                self.stage = UploadStage::Reading;
                Step::ReadSource
            },
            UploadStage::Truncating => {
                self.stage = UploadStage::Renaming;
                Step::Call {
                    call: RemoteCall::Rename { from: self.temp.clone(), to: self.remote.clone() },
                }
            },
            UploadStage::Renaming => Step::Finish {
                result: Ok(report_count("bytes_uploaded", self.offset)),
            },
            UploadStage::Cleaning { error } => Step::Finish { result: Err(error) },
            UploadStage::Finished => Step::Finish {
                result: Ok(report_count("bytes_uploaded", self.offset)),
            },
        }
    }
}

// ---------------------------------------------------------------------------
// Download
// ---------------------------------------------------------------------------

/// Where a download stands: what was begun last.
#[derive(Debug)]
pub enum DownloadStage {
    MakingDir { dir: String },
    Creating,
    Fetching,
    Writing { eof: bool },
    Syncing,
    Replacing,
    /// The temporary file is being removed; the download has failed.
    Cleaning { error: String },
    Finished,
}

/// Where a download stands, as a mathematical value.
pub enum DownloadStageView {
    MakingDir { dir: Seq<char> },
    Creating,
    Fetching,
    Writing { eof: bool },
    Syncing,
    Replacing,
    Cleaning { error: Seq<char> },
    Finished,
}

/// A download of a remote file.
pub struct Download {
    remote: String,
    local: String,
    temp: String,
    /// Bytes that have been written.
    offset: u64,
    /// Length of the chunk that is being written.
    chunk_len: u64,
    stage: DownloadStage,
    written: Ghost<Seq<u8>>,
    chunk: Ghost<Seq<u8>>,
}

/// A download, as a mathematical value.
#[verifier::ext_equal]
pub struct DownloadView {
    pub remote: Seq<char>,
    pub local: Seq<char>,
    pub temp: Seq<char>,
    /// The bytes that have been written.
    pub written: Seq<u8>,
    /// The bytes that are being written.
    pub chunk: Seq<u8>,
    pub stage: DownloadStageView,
}

impl View for Download {
    type V = DownloadView;

    closed spec fn view(&self) -> DownloadView {
        DownloadView {
            remote: self.remote@,
            local: self.local@,
            temp: self.temp@,
            written: self.written@,
            chunk: self.chunk@,
            stage: stage_view(self.stage),
        }
    }
}

impl Download {
    /// The counters are the lengths of what they count.
    pub closed spec fn inv(self) -> bool {
        self.offset == self.written@.len() && self.chunk_len == self.chunk@.len()
    }
}

impl DownloadView {
    /// The download at another stage.
    pub open spec fn at(self, stage: DownloadStageView) -> DownloadView {
        DownloadView { stage, ..self }
    }

    /// The download once it has failed, with the temporary file to remove.
    pub open spec fn failed(self, error: Seq<char>) -> DownloadView {
        self.at(DownloadStageView::Cleaning { error })
    }

    /// What the download waits for at its stage.
    pub open spec fn step(self) -> StepView {
        let offset = self.written.len() as u64;
        match self.stage {
            DownloadStageView::MakingDir { dir } => StepView::MakeDir { path: dir },
            DownloadStageView::Creating => StepView::CreateLocal { path: self.temp },
            DownloadStageView::Fetching => StepView::Call {
                call: CallView::Read {
                    path: self.remote,
                    offset,
                    limit: TRANSFER_CHUNK_BYTES as u64,
                },
            },
            DownloadStageView::Writing { .. } => StepView::AppendLocal {
                path: self.temp,
                bytes: self.chunk,
            },
            DownloadStageView::Syncing => StepView::SyncLocal { path: self.temp },
            DownloadStageView::Replacing => StepView::RenameLocal {
                from: self.temp,
                to: self.local,
            },
            DownloadStageView::Cleaning { .. } => StepView::RemoveLocal { path: self.temp },
            DownloadStageView::Finished => StepView::Finish {
                result: Ok(count_text("bytes_downloaded"@, offset)),
            },
        }
    }

    /// The download once a chunk has come: a text that is not base64 ends it,
    /// and so does a chunk without bytes that is not the last.
    pub open spec fn fetched(self, data: Seq<char>, eof: bool) -> DownloadView {
        match base64_bytes(data) {
            Ok(bytes) => if bytes.len() == 0 && !eof {
                self.failed("remote transfer returned an empty non-final chunk"@)
            } else {
                DownloadView {
                    chunk: bytes,
                    stage: DownloadStageView::Writing { eof },
                    ..self
                }
            },
            Err(why) => self.failed(BAD_CHUNK@ + why),
        }
    }

    /// The download once its step has gone as `how` says.
    pub open spec fn next(self, how: OutcomeView) -> DownloadView {
        match how {
            OutcomeView::Failed(why) => match self.stage {
                DownloadStageView::Creating => self.failed(
                    complaint("create local destination "@, self.temp, why),
                ),
                DownloadStageView::Fetching => self.failed(why),
                DownloadStageView::Writing { .. } => self.failed(
                    complaint("write local destination "@, self.temp, why),
                ),
                DownloadStageView::Syncing => self.failed(
                    complaint("sync local destination "@, self.temp, why),
                ),
                _ => self.at(DownloadStageView::Finished),
            },
            _ => match self.stage {
                DownloadStageView::MakingDir { .. } => self.at(DownloadStageView::Creating),
                DownloadStageView::Creating => self.at(DownloadStageView::Fetching),
                DownloadStageView::Fetching => match how {
                    OutcomeView::Chunk { data, eof } => self.fetched(data, eof),
                    _ => self,
                },
                DownloadStageView::Writing { eof } => DownloadView {
                    written: self.written + self.chunk,
                    chunk: Seq::empty(),
                    stage: if eof {
                        DownloadStageView::Syncing
                    } else {
                        DownloadStageView::Fetching
                    },
                    ..self
                },
                DownloadStageView::Syncing => self.at(DownloadStageView::Replacing),
                _ => self.at(DownloadStageView::Finished),
            },
        }
    }

    /// The step that follows when the last one has gone as `how` says: a
    /// failure before the temporary file is created, or when it takes the
    /// place of the destination, is reported at once, any other one after the
    /// temporary file has been removed.
    pub open spec fn reaction(self, how: OutcomeView) -> StepView {
        match (self.stage, how) {
            (
                DownloadStageView::MakingDir { dir },
                OutcomeView::Failed(why),
            ) => StepView::Finish {
                result: Err(complaint("create local directory "@, dir, why)),
            },
            (DownloadStageView::Replacing, OutcomeView::Failed(why)) => StepView::Finish {
                result: Err(complaint("replace local destination "@, self.local, why)),
            },
            (DownloadStageView::Cleaning { error }, _) => StepView::Finish { result: Err(error) },
            _ => self.next(how).step(),
        }
    }
}

/// Where a download begins: with the directory of its destination, where that
/// is to be created and has a name, else with the temporary file.
pub open spec fn first_stage(local: Seq<char>, create_dirs: Option<bool>) -> DownloadStageView {
    match parent_of(local) {
        Some(dir) => if create_dirs == Some(true) && dir.len() > 0 {
            DownloadStageView::MakingDir { dir }
        } else {
            DownloadStageView::Creating
        },
        None => DownloadStageView::Creating,
    }
}

impl Download {
    /// A download, and its first step. `nonce` tells its temporary file apart
    /// from others.
    pub fn new(args: &DownloadFileArgs, nonce: u64) -> (res: (Self, Step))
        ensures
            res.0.inv(),
            res.0@ == (DownloadView {
                remote: args.remote_path@,
                local: args.local_path@,
                temp: temporary_at(args.local_path@, "download"@, nonce),
                written: Seq::empty(),
                chunk: Seq::empty(),
                stage: first_stage(args.local_path@, args.create_dirs),
            }),
            res.1@ == res.0@.step(),
            args.create_dirs == Some(true) && parent_of(args.local_path@) is Some && parent_of(
                args.local_path@,
            )->0.len() > 0 ==> res.1@ == (StepView::MakeDir {
                path: parent_of(args.local_path@)->0,
            }),
            args.create_dirs != Some(true) ==> res.1@ == (StepView::CreateLocal {
                path: res.0@.temp,
            }),
    {
        let temp = numbered_path(args.local_path.as_str(), "download", nonce);
        let create = match args.create_dirs {
            Some(create) => create,
            None => false,
        };
        let mut stage = DownloadStage::Creating;
        let mut step = Step::CreateLocal { path: temp.clone() };
        if create {
            if let Some(dir) = parent(args.local_path.as_str()) {
                if !dir.as_str().is_empty() {
                    step = Step::MakeDir { path: dir.clone() };
                    stage = DownloadStage::MakingDir { dir };
                }
            }
        }
        let download = Download {
            remote: args.remote_path.clone(),
            local: args.local_path.clone(),
            temp,
            offset: 0,
            chunk_len: 0,
            stage,
            written: Ghost(Seq::empty()),
            chunk: Ghost(Seq::empty()),
        };
        (download, step)
    }

    /// A download with a random temporary name, and its first step.
    pub fn download_file(args: &DownloadFileArgs) -> (res: (Self, Step))
        ensures
            res.0.inv(),
            res.0@.remote == args.remote_path@,
            res.0@.local == args.local_path@,
            exists|nonce: u64| #[trigger]
                temporary_at(args.local_path@, "download"@, nonce) == res.0@.temp,
            res.0@.written == Seq::<u8>::empty(),
            res.0@.chunk == Seq::<u8>::empty(),
            res.0@.stage == first_stage(args.local_path@, args.create_dirs),
            res.1@ == res.0@.step(),
            args.create_dirs == Some(true) && parent_of(args.local_path@) is Some && parent_of(
                args.local_path@,
            )->0.len() > 0 ==> res.1@ == (StepView::MakeDir {
                path: parent_of(args.local_path@)->0,
            }),
            args.create_dirs != Some(true) ==> res.1@ == (StepView::CreateLocal {
                path: res.0@.temp,
            }),
    {
        Download::new(args, random_u64())
    }

    /// Whether the bytes written so far, with those that are being written,
    /// can be counted.
    pub fn fits(&self) -> (res: bool)
        requires
            self.inv(),
        ensures
            res == (self@.written.len() + self@.chunk.len() <= u64::MAX),
    {
        self.chunk_len <= u64::MAX - self.offset
    }

    /// Begins to remove the temporary file.
    fn clean(&mut self, error: String) -> (res: Step)
        requires
            old(self).inv(),
        ensures
            final(self).inv(),
            final(self)@ == old(self)@.failed(error@),
            res@ == final(self)@.step(),
    {
        self.stage = DownloadStage::Cleaning { error };
        Step::RemoveLocal { path: self.temp.clone() }
    }

    /// Asks for the next chunk.
    fn fetch(&mut self) -> (res: Step)
        requires
            old(self).inv(),
        ensures
            final(self).inv(),
            final(self)@ == old(self)@.at(DownloadStageView::Fetching),
            res@ == final(self)@.step(),
    {
        self.stage = DownloadStage::Fetching;
        Step::Call {
            call: RemoteCall::Read {
                path: self.remote.clone(),
                offset: self.offset,
                limit: TRANSFER_CHUNK_BYTES as u64,
            },
        }
    }

    /// The last step has failed: the step that follows.
    fn fail(&mut self, stage: DownloadStage, why: String) -> (res: Step)
        requires
            old(self).inv(),
            old(self)@.stage is Finished,
        ensures
            final(self).inv(),
            ({
                let was = old(self)@.at(stage_view(stage));
                &&& final(self)@ == was.next(OutcomeView::Failed(why@))
                &&& !(stage is Finished) ==> res@ == was.reaction(OutcomeView::Failed(why@))
            }),
    {
        match stage {
            DownloadStage::MakingDir { dir } => Step::Finish {
                result: Err(complain("create local directory ", dir.as_str(), why.as_str())),
            },
            DownloadStage::Creating => {
                let error = complain(
                    "create local destination ",
                    self.temp.as_str(),
                    why.as_str(),
                );
                self.clean(error)
            },
            DownloadStage::Fetching => self.clean(why),
            DownloadStage::Writing { eof } => {
                let error = complain("write local destination ", self.temp.as_str(), why.as_str());
                self.clean(error)
            },
            DownloadStage::Syncing => {
                let error = complain("sync local destination ", self.temp.as_str(), why.as_str());
                self.clean(error)
            },
            DownloadStage::Replacing => Step::Finish {
                result: Err(
                    complain("replace local destination ", self.local.as_str(), why.as_str()),
                ),
            },
            DownloadStage::Cleaning { error } => Step::Finish { result: Err(error) },
            DownloadStage::Finished => Step::Finish { result: Err(why) },
        }
    }

    /// The last step has gone as `how` says: the step that follows.
    pub fn next(&mut self, how: Outcome) -> (res: Step)
        requires
            old(self).inv(),
            !(old(self)@.stage is Finished),
            old(self)@.stage is Fetching ==> how@ is Chunk || how@ is Failed,
            old(self)@.stage is Writing ==> how@ is Failed || old(self)@.written.len() + old(
                self,
            )@.chunk.len() <= u64::MAX,
        ensures
            final(self).inv(),
            final(self)@ == old(self)@.next(how@),
            res@ == old(self)@.reaction(how@),
            final(self)@.remote == old(self)@.remote,
            final(self)@.local == old(self)@.local,
            final(self)@.temp == old(self)@.temp,
            forall|bytes: Seq<u8>|
                old(self)@.stage is Fetching && how@ is Chunk && #[trigger] decodes_to(
                    how@->data,
                    bytes,
                ) && (bytes.len() > 0 || how@->eof) ==> res@ == (StepView::AppendLocal {
                    path: old(self)@.temp,
                    bytes,
                }) && final(self)@.chunk == bytes && final(self)@.written == old(self)@.written,
            old(self)@.stage is Writing && !(how@ is Failed) ==> final(self)@.written == old(
                self,
            )@.written + old(self)@.chunk,
            forall|path: Seq<char>, offset: u64, limit: u64|
                res@ == (StepView::Call { call: CallView::Read { path, offset, limit } }) ==> path
                    == old(self)@.remote && offset == final(self)@.written.len() && limit == 1024
                    * 1024,
    {
        let ghost before = self@;
        let mut stage = DownloadStage::Finished;
        std::mem::swap(&mut stage, &mut self.stage);
        assert(before == self@.at(stage_view(stage)));
        let failure = match &how {
            Outcome::Failed(why) => Some(why.clone()),
            _ => None,
        };
        if let Some(why) = failure {
            return self.fail(stage, why);
        }
        match stage {
            DownloadStage::MakingDir { dir } => {
                self.stage = DownloadStage::Creating;
                Step::CreateLocal { path: self.temp.clone() }
            },
            DownloadStage::Creating => self.fetch(),
            DownloadStage::Fetching => {
                if let Outcome::Chunk(r) = how {
                    match base64_decode(r.data.as_str(), BAD_CHUNK) {
                        Ok(bytes) => {
                            let n: usize = bytes.len();
                            if n == 0 && !r.eof {
                                let error =
                                    "remote transfer returned an empty non-final chunk".to_owned();
                                return self.clean(error);
                            }
                            self.chunk_len = n as u64;
                            self.chunk = Ghost(bytes@);
                            self.stage = DownloadStage::Writing { eof: r.eof };
                            Step::AppendLocal { path: self.temp.clone(), bytes }
                        },
                        Err(error) => self.clean(error),
                    }
                } else {
                    self.fetch()
                }
            },
            DownloadStage::Writing { eof } => {
                self.offset = self.offset + self.chunk_len;
                self.written = Ghost(self.written@ + self.chunk@);
                self.chunk_len = 0;
                self.chunk = Ghost(Seq::empty());
                if eof {
                    self.stage = DownloadStage::Syncing;
                    Step::SyncLocal { path: self.temp.clone() }
                } else {
                    self.fetch()
                }
            },
            DownloadStage::Syncing => {
                self.stage = DownloadStage::Replacing;
                Step::RenameLocal { from: self.temp.clone(), to: self.local.clone() }
            },
            DownloadStage::Replacing => Step::Finish {
                result: Ok(report_count("bytes_downloaded", self.offset)),
            },
            DownloadStage::Cleaning { error } => Step::Finish { result: Err(error) },
            DownloadStage::Finished => Step::Finish {
                result: Ok(report_count("bytes_downloaded", self.offset)),
            },
        }
    }
}

/// Where a download stands, as a mathematical value.
pub open spec fn stage_view(stage: DownloadStage) -> DownloadStageView {
    match stage {
        DownloadStage::MakingDir { dir } => DownloadStageView::MakingDir { dir: dir@ },
        DownloadStage::Creating => DownloadStageView::Creating,
        DownloadStage::Fetching => DownloadStageView::Fetching,
        DownloadStage::Writing { eof } => DownloadStageView::Writing { eof },
        DownloadStage::Syncing => DownloadStageView::Syncing,
        DownloadStage::Replacing => DownloadStageView::Replacing,
        DownloadStage::Cleaning { error } => DownloadStageView::Cleaning { error: error@ },
        DownloadStage::Finished => DownloadStageView::Finished,
    }
}

// ---------------------------------------------------------------------------
// Laws of transfers
// ---------------------------------------------------------------------------

/// The files of a machine by path.
pub type Files = Map<Seq<char>, Seq<u8>>;

/// A file with `bytes` written into it at `offset`, with zeros in a gap before.
pub open spec fn overwritten(file: Seq<u8>, offset: int, bytes: Seq<u8>) -> Seq<u8> {
    let end = offset + bytes.len();
    let len = if end > file.len() {
        end
    } else {
        file.len() as int
    };
    Seq::new(
        len as nat,
        |i: int|
            if offset <= i < end {
                bytes[i - offset]
            } else if i < file.len() {
                file[i]
            } else {
                0
            },
    )
}

/// A file cut, or filled with zeros, to `size` bytes.
pub open spec fn resized(file: Seq<u8>, size: int) -> Seq<u8> {
    Seq::new(
        size as nat,
        |i: int|
            if i < file.len() {
                file[i]
            } else {
                0
            },
    )
}

/// The files of the target once it has performed a step.
pub open spec fn on_target(files: Files, step: StepView) -> Files {
    match step {
        StepView::Call { call } => match call {
            CallView::Create { path, .. } => files.insert(path, Seq::empty()),
            CallView::WriteAt { path, offset, bytes } => files.insert(
                path,
                overwritten(files[path], offset as int, bytes),
            ),
            CallView::Truncate { path, size } => files.insert(
                path,
                resized(files[path], size as int),
            ),
            CallView::Rename { from, to } => files.remove(from).insert(to, files[from]),
            CallView::Remove { path } => files.remove(path),
            CallView::Read { .. } => files,
        },
        _ => files,
    }
}

/// The files of this machine once it has performed a step.
pub open spec fn on_local(files: Files, step: StepView) -> Files {
    match step {
        StepView::CreateLocal { path } => files.insert(path, Seq::empty()),
        StepView::AppendLocal { path, bytes } => files.insert(path, files[path] + bytes),
        StepView::RenameLocal { from, to } => files.remove(from).insert(to, files[from]),
        StepView::RemoveLocal { path } => files.remove(path),
        _ => files,
    }
}

/// The step writes to the file `path` of the target, or may have where it
/// failed.
pub open spec fn touches_target(step: StepView, path: Seq<char>) -> bool {
    match step {
        StepView::Call { call } => match call {
            CallView::Create { path: p, .. } => p == path,
            CallView::WriteAt { path: p, .. } => p == path,
            CallView::Truncate { path: p, .. } => p == path,
            CallView::Rename { from, to } => from == path || to == path,
            CallView::Remove { path: p } => p == path,
            CallView::Read { .. } => false,
        },
        _ => false,
    }
}

/// The step writes to the local file `path`, or may have where it failed.
pub open spec fn touches_local(step: StepView, path: Seq<char>) -> bool {
    match step {
        StepView::CreateLocal { path: p } => p == path,
        StepView::AppendLocal { path: p, .. } => p == path,
        StepView::RenameLocal { from, to } => from == path || to == path,
        StepView::RemoveLocal { path: p } => p == path,
        _ => false,
    }
}

/// The file at `path` is as before.
pub open spec fn same_file(before: Files, after: Files, path: Seq<char>) -> bool {
    &&& after.contains_key(path) == before.contains_key(path)
    &&& before.contains_key(path) ==> after[path] == before[path]
}

impl UploadView {
    /// The temporary file of the target holds the bytes that it has taken.
    pub open spec fn matches(self, files: Files) -> bool {
        &&& self.stage is Opening || self.stage is Creating ==> self.sent.len() == 0
        &&& (self.stage is Reading || self.stage is Writing || self.stage is Truncating
            || self.stage is Renaming) ==> files.contains_key(self.temp) && files[self.temp]
            == self.sent
    }
}

impl DownloadView {
    /// The temporary file holds the bytes that have been written.
    pub open spec fn matches(self, files: Files) -> bool {
        &&& self.stage is MakingDir || self.stage is Creating ==> self.written.len() == 0
        &&& (self.stage is Fetching || self.stage is Writing || self.stage is Syncing
            || self.stage is Replacing) ==> files.contains_key(self.temp) && files[self.temp]
            == self.written
    }
}

/// The temporary name of an upload is not the name of its destination.
pub proof fn lemma_upload_temp_is_another_file(remote: Seq<char>, nonce: u64)
    ensures
        upload_temp(remote, nonce) != remote,
{
    reveal_strlit(".relayfs-upload-");
    assert(upload_temp(remote, nonce).len() > remote.len());
}

/// Uploads are atomic: the destination is not touched by any step but the
/// last, and the last puts the complete file there, exactly the bytes that
/// were read of the source.
pub proof fn lemma_upload_is_atomic(u: UploadView, files: Files, how: OutcomeView)
    requires
        u.temp != u.remote,
        u.matches(files),
        !(how is Failed),
        u.sent.len() + u.chunk.len() <= u64::MAX,
    ensures
        u.next(how).matches(on_target(files, u.step())),
        !(u.stage is Renaming) ==> same_file(files, on_target(files, u.step()), u.remote),
        u.stage is Renaming ==> {
            let after = on_target(files, u.step());
            after.contains_key(u.remote) && after[u.remote] == u.sent && !after.contains_key(u.temp)
        },
        u.stage is Reading && how is Bytes && how->Bytes_0.len() > 0 ==> u.next(how).chunk
            == how->Bytes_0,
        u.stage is Writing ==> u.next(how).sent == u.sent + u.chunk,
{
    let after = on_target(files, u.step());
    if u.stage is Creating {
        assert(u.sent =~= Seq::<u8>::empty());
    }
    if u.stage is Writing {
        assert(overwritten(u.sent, u.sent.len() as int, u.chunk) =~= u.sent + u.chunk);
    }
    if u.stage is Truncating {
        assert(resized(u.sent, u.sent.len() as int) =~= u.sent);
    }
}

/// An upload succeeds only when the destination has been replaced, and reports
/// how many bytes it holds. One that fails after it was begun on the target
/// removes its temporary file first.
pub proof fn lemma_upload_ends_clean(u: UploadView, how: OutcomeView)
    requires
        !(u.stage is Finished),
    ensures
        u.reaction(how) matches StepView::Finish { result } ==> (result is Ok <==> u.stage is Renaming
            && !(how is Failed)),
        u.stage is Renaming && !(how is Failed) ==> u.reaction(how) == (StepView::Finish {
            result: Ok(count_text("bytes_uploaded"@, u.sent.len() as u64)),
        }),
        how is Failed && !(u.stage is Opening) && !(u.stage is Cleaning) ==> u.reaction(how) == (
        StepView::Call { call: CallView::Remove { path: u.temp } }) && u.next(how).stage is Cleaning,
{
}

/// Downloads are atomic: the destination is not touched by any step but the
/// last, and the last puts the complete file there, exactly the bytes of the
/// chunks that came up to the final one.
pub proof fn lemma_download_is_atomic(d: DownloadView, files: Files, how: OutcomeView)
    requires
        d.temp != d.local,
        d.matches(files),
        !(how is Failed),
        d.stage is Fetching ==> how is Chunk,
    ensures
        d.next(how).matches(on_local(files, d.step())),
        !(d.stage is Replacing) ==> same_file(files, on_local(files, d.step()), d.local),
        d.stage is Replacing ==> {
            let after = on_local(files, d.step());
            after.contains_key(d.local) && after[d.local] == d.written && !after.contains_key(d.temp)
        },
        d.stage matches DownloadStageView::Writing { eof } ==> d.next(how).written == d.written
            + d.chunk && (eof <==> d.next(how).stage is Syncing),
{
    if d.stage is Creating {
        assert(d.written =~= Seq::<u8>::empty());
    }
}

/// A download succeeds only when the destination has been replaced, and
/// reports how many bytes it holds. One that fails after its temporary file
/// was begun, and before that takes the place of the destination, removes it.
pub proof fn lemma_download_ends_clean(d: DownloadView, how: OutcomeView)
    requires
        !(d.stage is Finished),
    ensures
        d.reaction(how) matches StepView::Finish { result } ==> (result is Ok
            <==> d.stage is Replacing && !(how is Failed)),
        d.stage is Replacing && !(how is Failed) ==> d.reaction(how) == (StepView::Finish {
            result: Ok(count_text("bytes_downloaded"@, d.written.len() as u64)),
        }),
        how is Failed && (d.stage is Creating || d.stage is Fetching || d.stage is Writing
            || d.stage is Syncing) ==> d.reaction(how) == (StepView::RemoveLocal { path: d.temp })
            && d.next(how).stage is Cleaning,
{
}

/// A temporary name holds no separator where the name and the label hold none.
proof fn lemma_temporary_name(name: Seq<char>, label: Seq<char>, nonce: u64)
    requires
        is_single(name),
        is_single(label),
    ensures
        is_single(temporary_name(name, label, nonce)),
        temporary_name(name, label, nonce).len() > name.len() + 9,
        temporary_name(name, label, nonce)[0] == '.',
{
    let t = temporary_name(name, label, nonce);
    reveal_strlit(".");
    reveal_strlit(".relayfs-");
    reveal_strlit("-");
    crate::text::lemma_hex_fixed(nonce as nat, 16);
    assert(".relayfs-"@.len() == 9);
    let h = hex_fixed(nonce as nat, 16);
    assert forall|i: int| 0 <= i < h.len() implies h[i] != '/' by {
        assert(crate::text::is_hex(h[i]));
    }
    assert(is_single(".relayfs-"@));
    assert(is_single("."@) && is_single("-"@));
}

/// A temporary file is never the file that it stands for.
pub proof fn lemma_temporary_is_another_file(path: Seq<char>, label: Seq<char>, nonce: u64)
    requires
        is_single(label),
    ensures
        temporary_at(path, label, nonce) != path,
{
    let dir = match parent_of(path) {
        Some(dir) => dir,
        None => "."@,
    };
    let name = match file_name_of(path) {
        Some(name) => name,
        None => Seq::empty(),
    };
    if file_name_of(path) is Some {
        crate::path::lemma_file_name_is_single(path);
    }
    lemma_temporary_name(name, label, nonce);
    reveal_strlit(".");
    reveal_strlit("..");
    crate::path::lemma_file_name_of_join(dir, temporary_name(name, label, nonce));
}

/// A temporary file lies in the directory of the file that it stands for: its
/// path is that of the directory and a name.
pub proof fn lemma_temporary_is_a_sibling(path: Seq<char>, label: Seq<char>, nonce: u64)
    requires
        parent_of(path) is Some,
        parent_of(path)->0.len() > 0,
        file_name_of(path) is Some,
        is_single(label),
    ensures
        components_of(temporary_at(path, label, nonce)) == components_of(parent_of(path)->0).push(
            temporary_name(file_name_of(path)->0, label, nonce),
        ),
{
    let name = temporary_name(file_name_of(path)->0, label, nonce);
    crate::path::lemma_file_name_is_single(path);
    lemma_temporary_name(file_name_of(path)->0, label, nonce);
    reveal_strlit(".");
    crate::path::lemma_join_adds_name(parent_of(path)->0, name);
}

/// Different numbers make different temporary paths.
pub proof fn lemma_temporary_paths_differ(path: Seq<char>, label: Seq<char>, a: u64, b: u64)
    requires
        a != b,
    ensures
        temporary_at(path, label, a) != temporary_at(path, label, b),
        upload_temp(path, a) != upload_temp(path, b),
{
    reveal_strlit(".");
    reveal_with_fuel(crate::text::sixteen_to, 17);
    crate::text::lemma_hex_tells_apart(a as nat, b as nat, 16);
    crate::text::lemma_hex_fixed(a as nat, 16);
    crate::text::lemma_hex_fixed(b as nat, 16);
    let ha = hex_fixed(a as nat, 16);
    let hb = hex_fixed(b as nat, 16);
    let x = temporary_at(path, label, a);
    let y = temporary_at(path, label, b);
    let name = match file_name_of(path) {
        Some(name) => name,
        None => Seq::empty(),
    };
    assert(temporary_name(name, label, a)[0] == '.');
    assert(temporary_name(name, label, b)[0] == '.');
    assert(x.len() == y.len());
    assert(x.skip(x.len() - 16) =~= ha);
    assert(y.skip(y.len() - 16) =~= hb);
    let u = upload_temp(path, a);
    let v = upload_temp(path, b);
    assert(u.skip(u.len() - 16) =~= ha);
    assert(v.skip(v.len() - 16) =~= hb);
}

/// The chunk that is appended is the chunk that came: while a download fetches,
/// an answer whose text stands for some bytes, which are not empty or are the
/// last, makes exactly those bytes the ones that are appended next, at the end of
/// what has been written; and once they are, the next part is asked for, from
/// where they end, until the last one has come.
pub proof fn lemma_download_appends_what_came(
    d: DownloadView,
    data: Seq<char>,
    eof: bool,
    bytes: Seq<u8>,
)
    requires
        d.stage is Fetching,
        decodes_to(data, bytes),
        bytes.len() > 0 || eof,
        d.written.len() + bytes.len() <= u64::MAX,
    ensures
        ({
            let how = OutcomeView::Chunk { data, eof };
            let d1 = d.next(how);
            let d2 = d1.next(OutcomeView::Done);
            &&& d.reaction(how) == (StepView::AppendLocal { path: d.temp, bytes })
            &&& d2.written == d.written + bytes
            &&& eof ==> d1.reaction(OutcomeView::Done) == (StepView::SyncLocal { path: d.temp })
            &&& !eof ==> d1.reaction(OutcomeView::Done) == (StepView::Call {
                call: CallView::Read {
                    path: d.remote,
                    offset: (d.written.len() + bytes.len()) as u64,
                    limit: 1048576,
                },
            })
        }),
{
}

/// The outcome is an honest one of the step, for the files of the target: a read
/// gives the bytes at the offset that it asks for, the last of them marked as
/// such, and everything else is done.
pub open spec fn download_went(how: OutcomeView, step: StepView, target: Files) -> bool {
    match step {
        StepView::Call { call: CallView::Read { path, offset, limit } } => {
            &&& target.contains_key(path)
            &&& how matches OutcomeView::Chunk { data, eof }
            &&& decodes_to(data, part(target[path], offset as int, limit as int))
            &&& eof ==> offset + limit >= target[path].len()
            &&& !eof ==> part(target[path], offset as int, limit as int).len() > 0
        },
        StepView::Finish { .. } => false,
        _ => how is Done,
    }
}

/// The download, its step, and the local files, once the steps have gone as the
/// outcomes say, one after the other.
pub open spec fn download_run(
    d: DownloadView,
    step: StepView,
    files: Files,
    hows: Seq<OutcomeView>,
) -> (DownloadView, StepView, Files)
    decreases hows.len(),
{
    if hows.len() == 0 {
        (d, step, files)
    } else {
        let (d, step, files) = download_run(d, step, files, hows.drop_last());
        (d.next(hows.last()), d.reaction(hows.last()), on_local(files, step))
    }
}

/// Every outcome is an honest one of the step that the download was at.
pub open spec fn download_all_went(
    d: DownloadView,
    step: StepView,
    files: Files,
    hows: Seq<OutcomeView>,
    target: Files,
) -> bool
    decreases hows.len(),
{
    hows.len() > 0 ==> download_all_went(d, step, files, hows.drop_last(), target)
        && download_went(
        hows.last(),
        download_run(d, step, files, hows.drop_last()).1,
        target,
    )
}

/// Where a download of `remote` stands after `count` steps.
spec fn download_on_course(
    d: DownloadView,
    step: StepView,
    files: Files,
    remote: Seq<u8>,
    count: int,
) -> bool {
    let have = d.written.len() as int;
    &&& have <= remote.len()
    &&& d.written == remote.take(have)
    &&& d.matches(files)
    &&& match d.stage {
        DownloadStageView::MakingDir { .. } => step == d.step() && count == 0,
        DownloadStageView::Creating => step == d.step() && count <= 1,
        DownloadStageView::Fetching => step == d.step() && count <= 2 + 2 * have,
        DownloadStageView::Writing { eof } => {
            &&& step == d.step()
            &&& have + d.chunk.len() <= remote.len()
            &&& d.chunk == remote.subrange(have, have + d.chunk.len())
            &&& eof ==> have + d.chunk.len() == remote.len()
            &&& !eof ==> d.chunk.len() > 0
            &&& count <= 3 + 2 * have
        },
        DownloadStageView::Syncing => step == d.step() && d.written == remote && count <= 4 + 2
            * have,
        DownloadStageView::Replacing => step == d.step() && d.written == remote && count <= 5 + 2
            * have,
        DownloadStageView::Cleaning { .. } => false,
        DownloadStageView::Finished => {
            &&& step == (StepView::Finish {
                result: Ok(count_text("bytes_downloaded"@, remote.len() as u64)),
            })
            &&& files.contains_key(d.local)
            &&& files[d.local] == remote
            &&& !files.contains_key(d.temp)
            &&& count <= 6 + 2 * have
        },
    }
}

/// One honest outcome keeps a download on course.
proof fn lemma_download_keeps_course(
    d: DownloadView,
    step: StepView,
    files: Files,
    how: OutcomeView,
    target: Files,
    count: int,
)
    requires
        target.contains_key(d.remote),
        target[d.remote].len() <= u64::MAX,
        d.temp != d.local,
        download_on_course(d, step, files, target[d.remote], count),
        download_went(how, step, target),
    ensures
        download_on_course(
            d.next(how),
            d.reaction(how),
            on_local(files, step),
            target[d.remote],
            count + 1,
        ),
        !(d.stage is Finished),
        d.next(how).remote == d.remote,
        d.next(how).local == d.local,
        d.next(how).temp == d.temp,
        forall|p: Seq<char>|
            p != d.temp && p != d.local ==> #[trigger] same_file(files, on_local(files, step), p),
        !(d.stage is Replacing) ==> same_file(files, on_local(files, step), d.local),
{
    let remote = target[d.remote];
    let have = d.written.len() as int;
    let after = d.next(how);
    match d.stage {
        DownloadStageView::Creating => {
            assert(d.written =~= Seq::<u8>::empty());
            assert(remote.take(0) =~= Seq::<u8>::empty());
        },
        DownloadStageView::Fetching => {
            let bytes = part(remote, have, 1048576);
            assert(after.chunk == bytes);
            assert(bytes =~= remote.subrange(have, have + bytes.len()));
        },
        DownloadStageView::Writing { eof } => {
            let end = have + d.chunk.len();
            assert(d.written + d.chunk =~= remote.take(end));
            if eof {
                assert(remote.take(end) =~= remote);
            }
        },
        _ => {},
    }
}

/// A download ends with the remote file: over a whole run against a target that
/// answers each read with its bytes at the offset asked for, every read is one of
/// the remote file, from where the bytes so far end; the destination is as it was
/// until the run is over, and is then equal to the remote file; the temporary
/// file is gone, no other file is touched, and the length is reported. The run
/// does not fail, and it comes to its end.
pub proof fn lemma_download_ends_with_the_remote_file(
    d: DownloadView,
    files: Files,
    hows: Seq<OutcomeView>,
    target: Files,
)
    requires
        target.contains_key(d.remote),
        target[d.remote].len() <= u64::MAX,
        d.temp != d.local,
        d.stage is MakingDir || d.stage is Creating,
        d.written.len() == 0,
        download_all_went(d, d.step(), files, hows, target),
    ensures
        hows.len() <= 6 + 2 * target[d.remote].len(),
        ({
            let remote = target[d.remote];
            let (_, step, after) = download_run(d, d.step(), files, hows);
            &&& step matches StepView::Call { call } ==> call == (CallView::Read {
                path: d.remote,
                offset: after[d.temp].len() as u64,
                limit: 1048576,
            }) && after.contains_key(d.temp) && after[d.temp].len() <= remote.len()
                && after[d.temp] == remote.take(after[d.temp].len() as int)
            &&& !(step is Finish) ==> same_file(files, after, d.local)
            &&& step matches StepView::Finish { result } ==> {
                &&& result == Ok::<Seq<char>, Seq<char>>(
                    json_text(
                        JsonView::Object(
                            Map::<Seq<char>, JsonView>::empty().insert(
                                "bytes_downloaded"@,
                                unsigned(remote.len() as u64),
                            ),
                        ),
                    ),
                )
                &&& after.contains_key(d.local)
                &&& after[d.local] == remote
                &&& !after.contains_key(d.temp)
            }
            &&& forall|p: Seq<char>|
                p != d.temp && p != d.local ==> #[trigger] same_file(files, after, p)
        }),
{
    lemma_download_run_keeps_course(d, files, hows, target);
}

/// The course of a whole download.
proof fn lemma_download_run_keeps_course(
    d: DownloadView,
    files: Files,
    hows: Seq<OutcomeView>,
    target: Files,
)
    requires
        target.contains_key(d.remote),
        target[d.remote].len() <= u64::MAX,
        d.temp != d.local,
        d.stage is MakingDir || d.stage is Creating,
        d.written.len() == 0,
        download_all_went(d, d.step(), files, hows, target),
    ensures
        ({
            let (now, step, after) = download_run(d, d.step(), files, hows);
            &&& download_on_course(now, step, after, target[d.remote], hows.len() as int)
            &&& now.remote == d.remote
            &&& now.local == d.local
            &&& now.temp == d.temp
            &&& !(now.stage is Finished) ==> same_file(files, after, d.local)
            &&& forall|p: Seq<char>|
                p != d.temp && p != d.local ==> #[trigger] same_file(files, after, p)
        }),
    decreases hows.len(),
{
    if hows.len() == 0 {
        assert(d.written =~= target[d.remote].take(0));
    } else {
        let before = hows.drop_last();
        lemma_download_run_keeps_course(d, files, before, target);
        let (now, step, mid) = download_run(d, d.step(), files, before);
        lemma_download_keeps_course(now, step, mid, hows.last(), target, before.len() as int);
        let after = on_local(mid, step);
        assert forall|p: Seq<char>| p != d.temp && p != d.local implies #[trigger] same_file(
            files,
            after,
            p,
        ) by {
            assert(same_file(files, mid, p));
            assert(same_file(mid, after, p));
        }
    }
}

/// The outcome is an honest one of the step, for a source of which `have` bytes
/// have been read: the source gives its next bytes, none at its end, and
/// everything else is done.
pub open spec fn upload_went(
    how: OutcomeView,
    step: StepView,
    source: Seq<u8>,
    have: int,
) -> bool {
    match step {
        StepView::ReadSource => {
            &&& how matches OutcomeView::Bytes(bytes)
            &&& have + bytes.len() <= source.len()
            &&& bytes == source.subrange(have, have + bytes.len())
            &&& bytes.len() == 0 ==> have == source.len()
        },
        StepView::Finish { .. } => false,
        _ => how is Done,
    }
}

/// How many bytes of the source have been read.
pub open spec fn bytes_read(hows: Seq<OutcomeView>) -> int
    decreases hows.len(),
{
    if hows.len() == 0 {
        0
    } else {
        bytes_read(hows.drop_last()) + match hows.last() {
            OutcomeView::Bytes(bytes) => bytes.len() as int,
            _ => 0,
        }
    }
}

/// The upload, its step, and the files of the target, once the steps have gone
/// as the outcomes say, one after the other.
pub open spec fn upload_run(
    u: UploadView,
    step: StepView,
    files: Files,
    hows: Seq<OutcomeView>,
) -> (UploadView, StepView, Files)
    decreases hows.len(),
{
    if hows.len() == 0 {
        (u, step, files)
    } else {
        let (u, step, files) = upload_run(u, step, files, hows.drop_last());
        (u.next(hows.last()), u.reaction(hows.last()), on_target(files, step))
    }
}

/// Every outcome is an honest one of the step that the upload was at.
pub open spec fn upload_all_went(
    u: UploadView,
    step: StepView,
    files: Files,
    hows: Seq<OutcomeView>,
    source: Seq<u8>,
) -> bool
    decreases hows.len(),
{
    hows.len() > 0 ==> upload_all_went(u, step, files, hows.drop_last(), source) && upload_went(
        hows.last(),
        upload_run(u, step, files, hows.drop_last()).1,
        source,
        bytes_read(hows.drop_last()),
    )
}

/// Where an upload of `source` stands after `count` steps, with `have` bytes read.
spec fn upload_on_course(
    u: UploadView,
    step: StepView,
    files: Files,
    source: Seq<u8>,
    have: int,
    count: int,
) -> bool {
    let sent = u.sent.len() as int;
    &&& u.matches(files)
    &&& sent <= have <= source.len()
    &&& u.sent == source.take(sent)
    &&& match u.stage {
        UploadStageView::Opening => step == u.step() && have == 0 && count == 0,
        UploadStageView::Creating => step == u.step() && have == 0 && count <= 1,
        UploadStageView::Reading => step == u.step() && have == sent && count <= 2 + 2 * sent,
        UploadStageView::Writing => {
            &&& step == u.step()
            &&& u.chunk == source.subrange(sent, have)
            &&& have > sent
            &&& count <= 3 + 2 * sent
        },
        UploadStageView::Truncating => step == u.step() && u.sent == source && count <= 3 + 2
            * sent,
        UploadStageView::Renaming => step == u.step() && u.sent == source && count <= 4 + 2 * sent,
        UploadStageView::Cleaning { .. } => false,
        UploadStageView::Finished => {
            &&& step == (StepView::Finish {
                result: Ok(count_text("bytes_uploaded"@, source.len() as u64)),
            })
            &&& files.contains_key(u.remote)
            &&& files[u.remote] == source
            &&& !files.contains_key(u.temp)
            &&& count <= 5 + 2 * sent
        },
    }
}

/// One honest outcome keeps an upload on course.
proof fn lemma_upload_keeps_course(
    u: UploadView,
    step: StepView,
    files: Files,
    how: OutcomeView,
    source: Seq<u8>,
    have: int,
    count: int,
)
    requires
        source.len() <= u64::MAX,
        u.temp != u.remote,
        upload_on_course(u, step, files, source, have, count),
        upload_went(how, step, source, have),
    ensures
        upload_on_course(
            u.next(how),
            u.reaction(how),
            on_target(files, step),
            source,
            have + match how {
                OutcomeView::Bytes(bytes) => bytes.len() as int,
                _ => 0,
            },
            count + 1,
        ),
        !(u.stage is Finished),
        u.next(how).local == u.local,
        u.next(how).remote == u.remote,
        u.next(how).temp == u.temp,
        u.next(how).create_dirs == u.create_dirs,
        forall|p: Seq<char>|
            p != u.temp && p != u.remote ==> #[trigger] same_file(
                files,
                on_target(files, step),
                p,
            ),
        !(u.stage is Renaming) ==> same_file(files, on_target(files, step), u.remote),
{
    let sent = u.sent.len() as int;
    match u.stage {
        UploadStageView::Creating => {
            assert(u.sent =~= Seq::<u8>::empty());
        },
        UploadStageView::Reading => {
            if how->Bytes_0.len() == 0 {
                assert(source.take(sent) =~= source);
            }
        },
        UploadStageView::Writing => {
            assert(u.sent + u.chunk =~= source.take(have));
            assert(overwritten(u.sent, sent, u.chunk) =~= u.sent + u.chunk);
        },
        UploadStageView::Truncating => {
            assert(resized(u.sent, sent) =~= u.sent);
        },
        _ => {},
    }
}

/// The course of a whole upload.
proof fn lemma_upload_run_keeps_course(
    u: UploadView,
    files: Files,
    hows: Seq<OutcomeView>,
    source: Seq<u8>,
)
    requires
        source.len() <= u64::MAX,
        u.temp != u.remote,
        u.stage is Opening,
        u.sent.len() == 0,
        upload_all_went(u, u.step(), files, hows, source),
    ensures
        ({
            let (now, step, after) = upload_run(u, u.step(), files, hows);
            &&& upload_on_course(
                now,
                step,
                after,
                source,
                bytes_read(hows),
                hows.len() as int,
            )
            &&& now.local == u.local
            &&& now.remote == u.remote
            &&& now.temp == u.temp
            &&& now.create_dirs == u.create_dirs
            &&& !(now.stage is Finished) ==> same_file(files, after, u.remote)
            &&& forall|p: Seq<char>|
                p != u.temp && p != u.remote ==> #[trigger] same_file(files, after, p)
        }),
    decreases hows.len(),
{
    if hows.len() == 0 {
        assert(u.sent =~= source.take(0));
    } else {
        let before = hows.drop_last();
        lemma_upload_run_keeps_course(u, files, before, source);
        let (now, step, mid) = upload_run(u, u.step(), files, before);
        lemma_upload_keeps_course(
            now,
            step,
            mid,
            hows.last(),
            source,
            bytes_read(before),
            before.len() as int,
        );
        let after = on_target(mid, step);
        assert forall|p: Seq<char>| p != u.temp && p != u.remote implies #[trigger] same_file(
            files,
            after,
            p,
        ) by {
            assert(same_file(files, mid, p));
            assert(same_file(mid, after, p));
        }
    }
}

/// An upload ends with the source on the target: over a whole run with a source
/// that gives its bytes one after the other and a target that does what it is
/// asked, the destination is as it was until the run is over, and is then equal
/// to the source; the temporary file is gone, no other file is touched, and the
/// length is reported. The source is the file that was named, the run does not
/// fail, and it comes to its end.
pub proof fn lemma_upload_ends_with_the_source(
    u: UploadView,
    files: Files,
    hows: Seq<OutcomeView>,
    source: Seq<u8>,
)
    requires
        source.len() <= u64::MAX,
        u.temp != u.remote,
        u.stage is Opening,
        u.sent.len() == 0,
        upload_all_went(u, u.step(), files, hows, source),
    ensures
        hows.len() <= 5 + 2 * source.len(),
        ({
            let (_, step, after) = upload_run(u, u.step(), files, hows);
            &&& step matches StepView::OpenSource { path } ==> path == u.local
            &&& hows.len() == 0 ==> step == (StepView::OpenSource { path: u.local })
            &&& step matches StepView::Call { call: CallView::Create { path, create_dirs } } ==> path
                == u.temp && create_dirs == u.create_dirs
            &&& !(step is Finish) ==> same_file(files, after, u.remote)
            &&& step matches StepView::Finish { result } ==> {
                &&& result == Ok::<Seq<char>, Seq<char>>(
                    json_text(
                        JsonView::Object(
                            Map::<Seq<char>, JsonView>::empty().insert(
                                "bytes_uploaded"@,
                                unsigned(source.len() as u64),
                            ),
                        ),
                    ),
                )
                &&& after.contains_key(u.remote)
                &&& after[u.remote] == source
                &&& !after.contains_key(u.temp)
            }
            &&& forall|p: Seq<char>|
                p != u.temp && p != u.remote ==> #[trigger] same_file(files, after, p)
        }),
{
    lemma_upload_run_keeps_course(u, files, hows, source);
}

/// The course of an upload: the source is opened before anything is made on the
/// target, each chunk is followed by the next, and when the source ends the
/// temporary file is cut to what was sent before it is renamed.
pub proof fn lemma_upload_cuts_the_file_before_it_is_renamed(u: UploadView, bytes: Seq<u8>)
    requires
        u.sent.len() + bytes.len() <= u64::MAX,
    ensures
        ({
            let done = OutcomeView::Done;
            let size = u.sent.len() as u64;
            let call = |c: CallView| StepView::Call { call: c };
            &&& u.stage is Opening ==> u.reaction(done) == call(
                CallView::Create { path: u.temp, create_dirs: u.create_dirs },
            )
            &&& u.stage is Creating ==> u.reaction(done) == StepView::ReadSource
            &&& u.stage is Reading && bytes.len() > 0 ==> {
                let writing = u.next(OutcomeView::Bytes(bytes));
                &&& u.reaction(OutcomeView::Bytes(bytes)) == call(
                    CallView::WriteAt { path: u.temp, offset: size, bytes },
                )
                &&& writing.reaction(done) == StepView::ReadSource
                &&& writing.next(done).sent == u.sent + bytes
            }
            &&& u.stage is Reading && bytes.len() == 0 ==> {
                let ended = u.next(OutcomeView::Bytes(bytes));
                &&& u.reaction(OutcomeView::Bytes(bytes)) == call(
                    CallView::Truncate { path: u.temp, size },
                )
                &&& ended.reaction(done) == call(CallView::Rename { from: u.temp, to: u.remote })
            }
        }),
{
}

/// The course of a download: the temporary file is made before anything is fetched,
/// and it is synced before it takes the place of the destination.
pub proof fn lemma_download_is_synced_before_it_is_put_in_place(d: DownloadView)
    requires
        d.written.len() <= u64::MAX,
    ensures
        ({
            let done = OutcomeView::Done;
            &&& d.stage is MakingDir ==> d.reaction(done) == (StepView::CreateLocal {
                path: d.temp,
            })
            &&& d.stage is Creating ==> d.reaction(done) == (StepView::Call {
                call: CallView::Read {
                    path: d.remote,
                    offset: d.written.len() as u64,
                    limit: 1048576,
                },
            })
            &&& d.stage == (DownloadStageView::Writing { eof: true }) ==> d.reaction(done) == (
            StepView::SyncLocal { path: d.temp })
            &&& d.stage is Syncing ==> d.reaction(done) == (StepView::RenameLocal {
                from: d.temp,
                to: d.local,
            })
        }),
{
}

/// A failure is reported by what was being done, to which file, and why: at once
/// where nothing has been begun, and else once the temporary file has been
/// removed, whether that succeeds or not.
pub proof fn lemma_failed_upload_says_why(u: UploadView, why: Seq<char>, how: OutcomeView)
    requires
        !(u.stage is Finished),
    ensures
        ({
            let failed = OutcomeView::Failed(why);
            let cleaning = u.next(failed);
            let told = |e: Seq<char>| StepView::Finish { result: Err(e) };
            let removal = StepView::Call { call: CallView::Remove { path: u.temp } };
            &&& u.stage is Opening ==> u.reaction(failed) == told(
                "open local source "@ + u.local + ": "@ + why,
            )
            &&& u.stage is Reading ==> u.reaction(failed) == removal && cleaning.reaction(how)
                == told("read local source "@ + u.local + ": "@ + why)
            &&& u.stage is Creating || u.stage is Writing || u.stage is Truncating
                || u.stage is Renaming ==> u.reaction(failed) == removal && cleaning.reaction(how)
                == told(why)
            &&& u.stage matches UploadStageView::Cleaning { error } ==> u.reaction(how) == told(
                error,
            )
        }),
{
}

/// A failure is reported by what was being done, to which file, and why: at once
/// where the temporary file has not been begun, or could not take the place of the
/// destination, and else once it has been removed, whether that succeeds or not.
pub proof fn lemma_failed_download_says_why(
    d: DownloadView,
    why: Seq<char>,
    data: Seq<char>,
    how: OutcomeView,
)
    requires
        !(d.stage is Finished),
        decodes_to(data, Seq::empty()),
    ensures
        ({
            let failed = OutcomeView::Failed(why);
            let cleaning = d.next(failed);
            let told = |e: Seq<char>| StepView::Finish { result: Err(e) };
            let removal = StepView::RemoveLocal { path: d.temp };
            let nothing = OutcomeView::Chunk { data, eof: false };
            &&& d.stage matches DownloadStageView::MakingDir { dir } ==> d.reaction(failed) == told(
                "create local directory "@ + dir + ": "@ + why,
            )
            &&& d.stage is Creating ==> d.reaction(failed) == removal && cleaning.reaction(how)
                == told("create local destination "@ + d.temp + ": "@ + why)
            &&& d.stage is Fetching ==> d.reaction(failed) == removal && cleaning.reaction(how)
                == told(why)
            &&& d.stage is Fetching ==> d.reaction(nothing) == removal && d.next(nothing).reaction(
                how,
            ) == told("remote transfer returned an empty non-final chunk"@)
            &&& d.stage is Writing ==> d.reaction(failed) == removal && cleaning.reaction(how)
                == told("write local destination "@ + d.temp + ": "@ + why)
            &&& d.stage is Syncing ==> d.reaction(failed) == removal && cleaning.reaction(how)
                == told("sync local destination "@ + d.temp + ": "@ + why)
            &&& d.stage is Replacing ==> d.reaction(failed) == told(
                "replace local destination "@ + d.local + ": "@ + why,
            )
            &&& d.stage matches DownloadStageView::Cleaning { error } ==> d.reaction(how) == told(
                error,
            )
        }),
{
}

/// A chunk that cannot be read ends a download, with the reason.
pub proof fn lemma_unreadable_chunk_ends_a_download(
    d: DownloadView,
    data: Seq<char>,
    eof: bool,
    why: Seq<char>,
    how: OutcomeView,
)
    requires
        d.stage is Fetching,
        base64_bytes(data) == Err::<Seq<u8>, Seq<char>>(why),
    ensures
        d.reaction(OutcomeView::Chunk { data, eof }) == (StepView::RemoveLocal { path: d.temp }),
        d.next(OutcomeView::Chunk { data, eof }).reaction(how) == (StepView::Finish {
            result: Err("invalid base64 returned by target: "@ + why),
        }),
{
}

/// Whatever fails, the destination of an upload is left alone: only the rename
/// at the end names it, and it names the temporary file as its source.
pub proof fn lemma_upload_leaves_the_destination_alone(u: UploadView, how: OutcomeView)
    requires
        u.temp != u.remote,
        !(u.stage is Finished),
    ensures
        touches_target(u.reaction(how), u.remote) ==> u.reaction(how) == (StepView::Call {
            call: CallView::Rename { from: u.temp, to: u.remote },
        }) && u.stage is Truncating && !(how is Failed),
{
}

/// Whatever fails, the destination of a download is left alone: only the
/// rename at the end names it, and it names the temporary file as its source.
pub proof fn lemma_download_leaves_the_destination_alone(d: DownloadView, how: OutcomeView)
    requires
        d.temp != d.local,
        !(d.stage is Finished),
    ensures
        touches_local(d.reaction(how), d.local) ==> d.reaction(how) == (StepView::RenameLocal {
            from: d.temp,
            to: d.local,
        }) && d.stage is Syncing && !(how is Failed),
{
}

} // verus!
