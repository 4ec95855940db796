//! The filesystem of a mount, backed by the target and a local cache.
//!
//! Each kernel operation is answered by a plan: steps on the local cache and
//! calls to the target, and then a reply. Writes land in the cache and are
//! queued; whatever must not overtake queued writes drains them first.

use vstd::hash_map::StringHashMap;
use vstd::prelude::*;

use crate::agent::files::Metadata;
use crate::bridge::attrs::{
    attr_from_metadata, attr_from_stat, attr_of, file_type, is_unreachable, local_type_of,
    out_of_reach, type_of, Errno, FileAttr, FileType,
};
use crate::bridge::inodes::{
    lemma_numbering_keeps_numbers, lemma_with_keeps_order, InodeMap, InodeView,
};
use crate::bridge::mcp::{
    empty_file_params, mode_params, mode_view, path_params, path_view, remove_params, remove_view,
    rename_params, rename_view, symlink_params, symlink_view, truncate_params, truncate_view,
    write_at_params, write_at_view, write_view,
};
use crate::encoding::base64_text;
use crate::json::{json_view, opt_bool, JsonView};
use crate::path::{
    below, components_of, file_name, file_name_of, join_path, joined_path,
    lemma_moved_path_keeps_components, normal, normalized, strip_prefix,
};
use crate::protocol::{method, FileKind, ListDirResult, RpcError, StatResult};
use crate::text::{has_prefix, opt_text, text_or_empty, texts};

verus! {

// ---------------------------------------------------------------------------
// Plans
// ---------------------------------------------------------------------------

/// One step of a plan.
#[derive(Debug)]
pub enum FsStep {
    /// Wait until nothing is pending for the paths. If that fails, the reply is
    /// `EIO` and the rest of the plan is not carried out.
    Drain { paths: Vec<String> },
    /// Wait until nothing is pending for the path, and go on if that fails.
    Settle { path: String },
    /// Call the target. `call_reply` says what its answer makes of the reply.
    Call { method: &'static str, params: serde_json::Value },
    MakeDir { path: String },
    /// Create the directory that the path is in.
    MakeParent { path: String },
    CreateFile { path: String },
    SetMode { path: String, mode: u32 },
    SetLen { path: String, len: u64 },
    RemoveFile { path: String },
    RemoveDir { path: String },
    MakeSymlink { target: String, link: String },
    Rename { from: String, to: String },
}

/// One step of a plan, as a mathematical value.
pub enum FsStepView {
    Drain { paths: Seq<Seq<char>> },
    Settle { path: Seq<char> },
    Call { method: Seq<char>, params: JsonView },
    MakeDir { path: Seq<char> },
    MakeParent { path: Seq<char> },
    CreateFile { path: Seq<char> },
    SetMode { path: Seq<char>, mode: u32 },
    SetLen { path: Seq<char>, len: u64 },
    RemoveFile { path: Seq<char> },
    RemoveDir { path: Seq<char> },
    MakeSymlink { target: Seq<char>, link: Seq<char> },
    Rename { from: Seq<char>, to: Seq<char> },
}

impl View for FsStep {
    type V = FsStepView;

    open spec fn view(&self) -> FsStepView {
        match self {
            FsStep::Drain { paths } => FsStepView::Drain { paths: texts(paths@) },
            FsStep::Settle { path } => FsStepView::Settle { path: path@ },
            FsStep::Call { method, params } => FsStepView::Call {
                method: method@,
                params: json_view(*params),
            },
            FsStep::MakeDir { path } => FsStepView::MakeDir { path: path@ },
            FsStep::MakeParent { path } => FsStepView::MakeParent { path: path@ },
            FsStep::CreateFile { path } => FsStepView::CreateFile { path: path@ },
            FsStep::SetMode { path, mode } => FsStepView::SetMode { path: path@, mode: *mode },
            FsStep::SetLen { path, len } => FsStepView::SetLen { path: path@, len: *len },
            FsStep::RemoveFile { path } => FsStepView::RemoveFile { path: path@ },
            FsStep::RemoveDir { path } => FsStepView::RemoveDir { path: path@ },
            FsStep::MakeSymlink { target, link } => FsStepView::MakeSymlink {
                target: target@,
                link: link@,
            },
            FsStep::Rename { from, to } => FsStepView::Rename { from: from@, to: to@ },
        }
    }
}

/// How a plan is answered once its steps have been taken. A drain or a call that
/// the target refuses fails the plan: `EIO` is replied, and the rest is not
/// carried out. Whatever else fails shows in the attributes.
#[derive(Debug)]
pub enum FsReply {
    Error { errno: Errno },
    Done,
    /// The attributes of the path.
    Attr { path: String },
}

/// How a plan is answered, as a mathematical value.
pub enum FsReplyView {
    Error { errno: Errno },
    Done,
    Attr { path: Seq<char> },
}

impl View for FsReply {
    type V = FsReplyView;

    open spec fn view(&self) -> FsReplyView {
        match self {
            FsReply::Error { errno } => FsReplyView::Error { errno: *errno },
            FsReply::Done => FsReplyView::Done,
            FsReply::Attr { path } => FsReplyView::Attr { path: path@ },
        }
    }
}

/// What is done for a kernel operation.
#[derive(Debug)]
pub struct Plan {
    pub steps: Vec<FsStep>,
    pub reply: FsReply,
}

/// What is done for a kernel operation, as a mathematical value.
#[verifier::ext_equal]
pub struct PlanView {
    pub steps: Seq<FsStepView>,
    pub reply: FsReplyView,
}

impl View for Plan {
    type V = PlanView;

    open spec fn view(&self) -> PlanView {
        PlanView { steps: steps_view(self.steps@), reply: self.reply@ }
    }
}

/// The steps of a plan.
pub open spec fn steps_view(steps: Seq<FsStep>) -> Seq<FsStepView> {
    steps.map_values(|s: FsStep| s@)
}

/// How a plan is answered, once one of its calls has failed with `failure` or
/// has not: a call that the target refused fails the plan, while a target that
/// is out of reach leaves the cache to go on with.
pub open spec fn reply_after(reply: FsReplyView, failure: Option<RpcError>) -> FsReplyView {
    match failure {
        Some(e) => if is_unreachable(e.code, e.message@) {
            reply
        } else {
            FsReplyView::Error { errno: Errno::EIO }
        },
        None => reply,
    }
}

/// How a plan is answered, once one of its calls has failed or has not.
pub fn call_reply(reply: FsReply, failure: Option<&RpcError>) -> (res: FsReply)
    ensures
        res@ == reply_after(
            reply@,
            match failure {
                Some(e) => Some(*e),
                None => None,
            },
        ),
        failure is None ==> res@ == reply@,
        failure is Some && (failure->0.code == -32000 || failure->0.code == -32001) ==> res@
            == reply@,
        failure is Some && failure->0.code != -32000 && failure->0.code != -32001
            && failure->0.code != -32603 ==> res@ == (FsReplyView::Error { errno: Errno::EIO }),
        failure is Some && failure->0.code == -32603 ==> res@ == if has_prefix(
            failure->0.message@,
            "send failed: "@,
        ) || has_prefix(failure->0.message@, "agent forward failed: "@) {
            reply@
        } else {
            FsReplyView::Error { errno: Errno::EIO }
        },
{
    match failure {
        Some(e) => if out_of_reach(e) {
            reply
        } else {
            FsReply::Error { errno: Errno::EIO }
        },
        None => reply,
    }
}

/// Nothing is done, and the operation fails.
pub open spec fn refusal(errno: Errno) -> PlanView {
    PlanView { steps: Seq::empty(), reply: FsReplyView::Error { errno } }
}

fn refuse(errno: Errno) -> (res: Plan)
    ensures
        res@ == refusal(errno),
{
    let steps: Vec<FsStep> = Vec::new();
    assert(steps_view(steps@) =~= Seq::<FsStepView>::empty());
    Plan { steps, reply: FsReply::Error { errno } }
}

/// Adds a step.
fn add_step(steps: &mut Vec<FsStep>, step: FsStep)
    ensures
        steps_view(final(steps)@) == steps_view(old(steps)@).push(step@),
{
    let ghost before = steps@;
    steps.push(step);
    assert(steps_view(steps@) =~= steps_view(before).push(step@));
}

/// No steps.
fn no_steps() -> (res: Vec<FsStep>)
    ensures
        steps_view(res@) == Seq::<FsStepView>::empty(),
{
    let steps: Vec<FsStep> = Vec::new();
    assert(steps_view(steps@) =~= Seq::<FsStepView>::empty());
    steps
}

/// Waits until nothing is pending for one path.
pub open spec fn drain_of(path: Seq<char>) -> FsStepView {
    FsStepView::Drain { paths: seq![path] }
}

fn drain_step(path: &str) -> (res: FsStep)
    ensures
        res@ == drain_of(path@),
{
    let mut paths: Vec<String> = Vec::new();
    paths.push(path.to_owned());
    assert(texts(paths@) =~= seq![path@]);
    FsStep::Drain { paths }
}

/// A call to the target.
pub open spec fn call_of(name: Seq<char>, params: JsonView) -> FsStepView {
    FsStepView::Call { method: name, params }
}

// ---------------------------------------------------------------------------
// The filesystem
// ---------------------------------------------------------------------------

/// The filesystem of a mount.
pub struct RemoteFs {
    read_only: bool,
    remote_dir: String,
    cache_dir: String,
    inodes: InodeMap,
    /// Paths with a read-prefetch task currently running.
    prefetching: StringHashMap<bool>,
}

/// The filesystem of a mount, as a mathematical value.
#[verifier::ext_equal]
pub struct FsView {
    pub read_only: bool,
    pub remote_dir: Seq<char>,
    pub cache_dir: Seq<char>,
    pub inodes: InodeView,
    /// By the shortest text of the path.
    pub prefetching: Set<Seq<char>>,
}

impl View for RemoteFs {
    type V = FsView;

    closed spec fn view(&self) -> FsView {
        FsView {
            read_only: self.read_only,
            remote_dir: self.remote_dir@,
            cache_dir: self.cache_dir@,
            inodes: self.inodes@,
            prefetching: self.prefetching@.dom(),
        }
    }
}

/// Where the remote path `path` is cached: at the same place below the cache
/// as it has below the mounted directory, or else under its last component.
pub open spec fn cache_path_of(
    remote_dir: Seq<char>,
    cache_dir: Seq<char>,
    path: Seq<char>,
) -> Seq<char> {
    match below(path, remote_dir) {
        Some(rel) => joined_path(cache_dir, rel),
        None => joined_path(
            cache_dir,
            match file_name_of(path) {
                Some(name) => name,
                None => Seq::empty(),
            },
        ),
    }
}

/// Where the flusher reads the bytes of `path`: at the same place below the
/// cache as it has below the mounted directory.
pub open spec fn upload_source_of(
    remote_dir: Seq<char>,
    cache_dir: Seq<char>,
    path: Seq<char>,
) -> Seq<char> {
    match below(path, remote_dir) {
        Some(rel) => joined_path(cache_dir, rel),
        None => joined_path(cache_dir, path),
    }
}

impl FsView {
    /// What always holds.
    pub open spec fn inv(self) -> bool {
        self.inodes.inv()
    }

    /// Where the remote path `path` is cached.
    pub open spec fn cache_path(self, path: Seq<char>) -> Seq<char> {
        cache_path_of(self.remote_dir, self.cache_dir, path)
    }

    /// The filesystem once `path` has an inode number.
    pub open spec fn knowing(self, path: Seq<char>) -> FsView {
        FsView { inodes: self.inodes.with(path), ..self }
    }

    /// The path of the entry `name` in the directory `parent`.
    pub open spec fn child(self, parent: u64, name: Seq<char>) -> Option<Seq<char>> {
        match self.inodes.path_of(parent) {
            Some(dir) => Some(joined_path(dir, name)),
            None => None,
        }
    }

    /// The filesystem once the entry `name` of `parent` has an inode number.
    pub open spec fn visited(self, parent: u64, name: Seq<char>) -> FsView {
        match self.child(parent, name) {
            Some(path) => self.knowing(path),
            None => self,
        }
    }

    /// What a change of the entry `name` of `parent` does, where the entry can
    /// be named and the mount can be written to.
    pub open spec fn guarded(self, parent: u64, name: Seq<char>, plan: PlanView) -> PlanView {
        if self.child(parent, name) is None {
            refusal(Errno::ENOENT)
        } else if self.read_only {
            refusal(Errno::EROFS)
        } else {
            plan
        }
    }

    /// Truncation and new permissions, where the mount can be written to. A
    /// truncation must not overtake queued writes: stale bytes could land after
    /// it.
    pub open spec fn setattr_plan(
        self,
        ino: u64,
        mode: Option<u32>,
        size: Option<u64>,
    ) -> PlanView {
        match self.inodes.path_of(ino) {
            Some(path) => if self.read_only && (size is Some || mode is Some) {
                refusal(Errno::EROFS)
            } else {
                let local = self.cache_path(path);
                let steps = match size {
                    Some(size) => seq![
                        drain_of(path),
                        call_of(method::TRUNCATE@, truncate_view(path, size)),
                        FsStepView::SetLen { path: local, len: size },
                    ],
                    None => Seq::empty(),
                };
                let more = match mode {
                    Some(mode) => seq![
                        call_of(method::CHMOD@, mode_view(path, Some(mode))),
                        FsStepView::SetMode { path: local, mode },
                    ],
                    None => Seq::empty(),
                };
                PlanView { steps: steps + more, reply: FsReplyView::Attr { path } }
            },
            None => refusal(Errno::ENOENT),
        }
    }

    /// The steps that make an empty file. They must not overtake queued writes.
    pub open spec fn new_file_steps(self, path: Seq<char>, mode: u32) -> Seq<FsStepView> {
        let local = self.cache_path(path);
        seq![
            FsStepView::MakeParent { path: local },
            FsStepView::CreateFile { path: local },
            FsStepView::SetMode { path: local, mode },
            drain_of(path),
            call_of(method::WRITE_FILE@, write_view(path, ""@, opt_bool(Some(false)))),
        ]
    }

    /// A new file.
    pub open spec fn mknod_plan(self, parent: u64, name: Seq<char>, mode: u32) -> PlanView {
        let path = self.child(parent, name)->0;
        self.guarded(
            parent,
            name,
            PlanView {
                steps: self.new_file_steps(path, mode),
                reply: FsReplyView::Attr { path },
            },
        )
    }

    /// A new file that is opened.
    pub open spec fn create_plan(self, parent: u64, name: Seq<char>, mode: u32) -> PlanView {
        let path = self.child(parent, name)->0;
        self.guarded(
            parent,
            name,
            PlanView {
                steps: self.new_file_steps(path, mode).push(
                    call_of(method::CHMOD@, mode_view(path, Some(mode))),
                ),
                reply: FsReplyView::Attr { path },
            },
        )
    }

    /// A new directory.
    pub open spec fn mkdir_plan(self, parent: u64, name: Seq<char>, mode: u32) -> PlanView {
        let path = self.child(parent, name)->0;
        self.guarded(
            parent,
            name,
            PlanView {
                steps: seq![
                    FsStepView::MakeDir { path: self.cache_path(path) },
                    call_of(method::MKDIR@, mode_view(path, Some(mode))),
                ],
                reply: FsReplyView::Attr { path },
            },
        )
    }

    /// The end of a file. Queued writes would be lost, so they are flushed.
    pub open spec fn unlink_plan(self, parent: u64, name: Seq<char>) -> PlanView {
        let path = self.child(parent, name)->0;
        self.guarded(
            parent,
            name,
            PlanView {
                steps: seq![
                    drain_of(path),
                    FsStepView::RemoveFile { path: self.cache_path(path) },
                    call_of(method::REMOVE@, remove_view(path, Some(false))),
                ],
                reply: FsReplyView::Done,
            },
        )
    }

    /// The end of a directory.
    pub open spec fn rmdir_plan(self, parent: u64, name: Seq<char>) -> PlanView {
        let path = self.child(parent, name)->0;
        self.guarded(
            parent,
            name,
            PlanView {
                steps: seq![
                    drain_of(path),
                    FsStepView::RemoveDir { path: self.cache_path(path) },
                    call_of(method::REMOVE@, remove_view(path, Some(false))),
                ],
                reply: FsReplyView::Done,
            },
        )
    }

    /// A new symlink.
    pub open spec fn symlink_plan(
        self,
        parent: u64,
        name: Seq<char>,
        target: Seq<char>,
    ) -> PlanView {
        let path = self.child(parent, name)->0;
        self.guarded(
            parent,
            name,
            PlanView {
                steps: seq![
                    FsStepView::MakeSymlink { target, link: self.cache_path(path) },
                    drain_of(path),
                    call_of(method::SYMLINK@, symlink_view(path, target)),
                ],
                reply: FsReplyView::Attr { path },
            },
        )
    }

    /// A new name. It must not overtake queued writes to either path.
    pub open spec fn rename_plan(
        self,
        parent: u64,
        name: Seq<char>,
        newparent: u64,
        newname: Seq<char>,
    ) -> PlanView {
        match (self.child(parent, name), self.child(newparent, newname)) {
            (Some(from), Some(to)) => if self.read_only {
                refusal(Errno::EROFS)
            } else {
                PlanView {
                    steps: seq![
                        FsStepView::Drain { paths: seq![from, to] },
                        FsStepView::MakeParent { path: self.cache_path(to) },
                        FsStepView::Rename {
                            from: self.cache_path(from),
                            to: self.cache_path(to),
                        },
                        call_of(method::RENAME@, rename_view(from, to)),
                    ],
                    reply: FsReplyView::Done,
                }
            },
            _ => refusal(Errno::ENOENT),
        }
    }
}

impl RemoteFs {
    /// An empty filesystem over `remote_dir`.
    pub fn new(remote_dir: &str, cache_dir: &str, read_only: bool) -> (res: Self)
        ensures
            res@.inv(),
            res@.read_only == read_only,
            res@.remote_dir == remote_dir@,
            res@.cache_dir == cache_dir@,
            res@.inodes == InodeView::fresh(remote_dir@),
            res@.prefetching == Set::<Seq<char>>::empty(),
    {
        let res = RemoteFs {
            read_only,
            remote_dir: remote_dir.to_owned(),
            cache_dir: cache_dir.to_owned(),
            inodes: InodeMap::new(remote_dir),
            prefetching: StringHashMap::new(),
        };
        assert(res@.prefetching =~= Set::<Seq<char>>::empty());
        res
    }

    /// Where a remote path is cached.
    pub fn cache_path(&self, path: &str) -> (res: String)
        ensures
            res@ == self@.cache_path(path@),
            below(path@, self@.remote_dir) is Some ==> res@ == joined_path(
                self@.cache_dir,
                below(path@, self@.remote_dir)->0,
            ),
            below(path@, self@.remote_dir) is None && file_name_of(path@) is Some ==> res@
                == joined_path(self@.cache_dir, file_name_of(path@)->0),
    {
        match strip_prefix(path, self.remote_dir.as_str()) {
            Some(rel) => join_path(self.cache_dir.as_str(), rel.as_str()),
            None => join_path(
                self.cache_dir.as_str(),
                text_or_empty(&file_name(path)).as_str(),
            ),
        }
    }

    /// Where the flusher reads the bytes of a remote path.
    pub fn upload_source(&self, path: &str) -> (res: String)
        ensures
            res@ == upload_source_of(self@.remote_dir, self@.cache_dir, path@),
            below(path@, self@.remote_dir) is Some ==> res@ == joined_path(
                self@.cache_dir,
                below(path@, self@.remote_dir)->0,
            ),
            below(path@, self@.remote_dir) is None ==> res@ == joined_path(self@.cache_dir, path@),
    {
        match strip_prefix(path, self.remote_dir.as_str()) {
            Some(rel) => join_path(self.cache_dir.as_str(), rel.as_str()),
            None => join_path(self.cache_dir.as_str(), path),
        }
    }

    /// Resolve an inode to a remote path.
    pub fn path_for(&self, ino: u64) -> (res: Option<String>)
        ensures
            opt_text(res) == self@.inodes.path_of(ino),
    {
        self.inodes.path(ino)
    }

    /// Whether `more` paths can be numbered.
    pub fn has_room(&self, more: u64) -> (res: bool)
        ensures
            res == (self@.inodes.next + more < u64::MAX),
    {
        self.inodes.has_room(more)
    }

    /// The inode number of a path; a path that has none gets the next.
    pub fn ino_for_path(&mut self, path: &str) -> (res: u64)
        requires
            old(self)@.inv(),
            old(self)@.inodes.next < u64::MAX,
        ensures
            final(self)@.inv(),
            res == old(self)@.inodes.number_of(path@),
            final(self)@ == old(self)@.knowing(path@),
    {
        self.inodes.ino_for(path)
    }

    /// Resolve `parent/name` to a remote path, registering the inode.
    pub fn child_path(&mut self, parent: u64, name: &str) -> (res: Option<String>)
        requires
            old(self)@.inv(),
            old(self)@.inodes.next < u64::MAX,
        ensures
            final(self)@.inv(),
            opt_text(res) == old(self)@.child(parent, name@),
            final(self)@ == old(self)@.visited(parent, name@),
            res is Some <==> old(self)@.inodes.paths.contains_key(parent),
            res is Some ==> res->0@ == joined_path(old(self)@.inodes.paths[parent], name@)
                && final(self)@.inodes.numbers.contains_key(normal(res->0@)),
    {
        match self.inodes.path(parent) {
            Some(dir) => {
                let path = join_path(dir.as_str(), name);
                self.inodes.ino_for(path.as_str());
                Some(path)
            },
            None => None,
        }
    }

    // -----------------------------------------------------------------------
    // Changes
    // -----------------------------------------------------------------------

    /// Truncation and new permissions.
    pub fn setattr(&self, ino: u64, mode: Option<u32>, size: Option<u64>) -> (res: Plan)
        ensures
            res@ == self@.setattr_plan(ino, mode, size),
    {
        let path = match self.path_for(ino) {
            Some(path) => path,
            None => {
                return refuse(Errno::ENOENT);
            },
        };
        if self.read_only && (size.is_some() || mode.is_some()) {
            return refuse(Errno::EROFS);
        }
        let mut steps = no_steps();
        if let Some(size) = size {
            add_step(&mut steps, drain_step(path.as_str()));
            add_step(
                &mut steps,
                FsStep::Call {
                    method: method::TRUNCATE,
                    params: truncate_params(path.as_str(), size),
                },
            );
            add_step(
                &mut steps,
                FsStep::SetLen { path: self.cache_path(path.as_str()), len: size },
            );
        }
        if let Some(mode) = mode {
            add_step(
                &mut steps,
                FsStep::Call {
                    method: method::CHMOD,
                    params: mode_params(path.as_str(), Some(mode)),
                },
            );
            add_step(
                &mut steps,
                FsStep::SetMode { path: self.cache_path(path.as_str()), mode },
            );
        }
        let plan = Plan { steps, reply: FsReply::Attr { path } };
        assert(plan@ =~= self@.setattr_plan(ino, mode, size));
        plan
    }

    /// The steps that make an empty file.
    fn new_file(&self, path: &str, mode: u32) -> (res: Vec<FsStep>)
        ensures
            steps_view(res@) == self@.new_file_steps(path@, mode),
    {
        let mut steps = no_steps();
        add_step(&mut steps, FsStep::MakeParent { path: self.cache_path(path) });
        add_step(&mut steps, FsStep::CreateFile { path: self.cache_path(path) });
        add_step(&mut steps, FsStep::SetMode { path: self.cache_path(path), mode });
        add_step(&mut steps, drain_step(path));
        add_step(
            &mut steps,
            FsStep::Call {
                method: method::WRITE_FILE,
                params: empty_file_params(path, Some(false)),
            },
        );
        assert(steps_view(steps@) =~= self@.new_file_steps(path@, mode));
        steps
    }

    /// A new file.
    pub fn mknod(&mut self, parent: u64, name: &str, mode: u32) -> (res: Plan)
        requires
            old(self)@.inv(),
            old(self)@.inodes.next < u64::MAX,
        ensures
            final(self)@.inv(),
            final(self)@ == old(self)@.visited(parent, name@),
            res@ == old(self)@.mknod_plan(parent, name@, mode),
    {
        let path = match self.child_path(parent, name) {
            Some(path) => path,
            None => {
                return refuse(Errno::ENOENT);
            },
        };
        if self.read_only {
            return refuse(Errno::EROFS);
        }
        let steps = self.new_file(path.as_str(), mode);
        Plan { steps, reply: FsReply::Attr { path } }
    }

    /// A new file that is opened.
    pub fn create(&mut self, parent: u64, name: &str, mode: u32) -> (res: Plan)
        requires
            old(self)@.inv(),
            old(self)@.inodes.next < u64::MAX,
        ensures
            final(self)@.inv(),
            final(self)@ == old(self)@.visited(parent, name@),
            res@ == old(self)@.create_plan(parent, name@, mode),
    {
        let path = match self.child_path(parent, name) {
            Some(path) => path,
            None => {
                return refuse(Errno::ENOENT);
            },
        };
        if self.read_only {
            return refuse(Errno::EROFS);
        }
        let mut steps = self.new_file(path.as_str(), mode);
        add_step(
            &mut steps,
            FsStep::Call {
                method: method::CHMOD,
                params: mode_params(path.as_str(), Some(mode)),
            },
        );
        Plan { steps, reply: FsReply::Attr { path } }
    }

    /// A new directory.
    pub fn mkdir(&mut self, parent: u64, name: &str, mode: u32) -> (res: Plan)
        requires
            old(self)@.inv(),
            old(self)@.inodes.next < u64::MAX,
        ensures
            final(self)@.inv(),
            final(self)@ == old(self)@.visited(parent, name@),
            res@ == old(self)@.mkdir_plan(parent, name@, mode),
    {
        let ghost before = self@;
        let path = match self.child_path(parent, name) {
            Some(path) => path,
            None => {
                return refuse(Errno::ENOENT);
            },
        };
        if self.read_only {
            return refuse(Errno::EROFS);
        }
        let mut steps = no_steps();
        add_step(&mut steps, FsStep::MakeDir { path: self.cache_path(path.as_str()) });
        add_step(
            &mut steps,
            FsStep::Call {
                method: method::MKDIR,
                params: mode_params(path.as_str(), Some(mode)),
            },
        );
        let plan = Plan { steps, reply: FsReply::Attr { path } };
        assert(plan@ =~= before.mkdir_plan(parent, name@, mode));
        plan
    }

    /// The end of a file.
    pub fn unlink(&mut self, parent: u64, name: &str) -> (res: Plan)
        requires
            old(self)@.inv(),
            old(self)@.inodes.next < u64::MAX,
        ensures
            final(self)@.inv(),
            final(self)@ == old(self)@.visited(parent, name@),
            res@ == old(self)@.unlink_plan(parent, name@),
    {
        let ghost before = self@;
        let path = match self.child_path(parent, name) {
            Some(path) => path,
            None => {
                return refuse(Errno::ENOENT);
            },
        };
        if self.read_only {
            return refuse(Errno::EROFS);
        }
        let mut steps = no_steps();
        add_step(&mut steps, drain_step(path.as_str()));
        add_step(&mut steps, FsStep::RemoveFile { path: self.cache_path(path.as_str()) });
        add_step(
            &mut steps,
            FsStep::Call {
                method: method::REMOVE,
                params: remove_params(path.as_str(), Some(false)),
            },
        );
        let plan = Plan { steps, reply: FsReply::Done };
        assert(plan@ =~= before.unlink_plan(parent, name@));
        plan
    }

    /// The end of a directory.
    pub fn rmdir(&mut self, parent: u64, name: &str) -> (res: Plan)
        requires
            old(self)@.inv(),
            old(self)@.inodes.next < u64::MAX,
        ensures
            final(self)@.inv(),
            final(self)@ == old(self)@.visited(parent, name@),
            res@ == old(self)@.rmdir_plan(parent, name@),
    {
        let ghost before = self@;
        let path = match self.child_path(parent, name) {
            Some(path) => path,
            None => {
                return refuse(Errno::ENOENT);
            },
        };
        if self.read_only {
            return refuse(Errno::EROFS);
        }
        let mut steps = no_steps();
        add_step(&mut steps, drain_step(path.as_str()));
        add_step(&mut steps, FsStep::RemoveDir { path: self.cache_path(path.as_str()) });
        add_step(
            &mut steps,
            FsStep::Call {
                method: method::REMOVE,
                params: remove_params(path.as_str(), Some(false)),
            },
        );
        let plan = Plan { steps, reply: FsReply::Done };
        assert(plan@ =~= before.rmdir_plan(parent, name@));
        plan
    }

    /// A new symlink.
    pub fn symlink(&mut self, parent: u64, name: &str, target: &str) -> (res: Plan)
        requires
            old(self)@.inv(),
            old(self)@.inodes.next < u64::MAX,
        ensures
            final(self)@.inv(),
            final(self)@ == old(self)@.visited(parent, name@),
            res@ == old(self)@.symlink_plan(parent, name@, target@),
    {
        let ghost before = self@;
        let path = match self.child_path(parent, name) {
            Some(path) => path,
            None => {
                return refuse(Errno::ENOENT);
            },
        };
        if self.read_only {
            return refuse(Errno::EROFS);
        }
        let mut steps = no_steps();
        add_step(
            &mut steps,
            FsStep::MakeSymlink {
                target: target.to_owned(),
                link: self.cache_path(path.as_str()),
            },
        );
        add_step(&mut steps, drain_step(path.as_str()));
        add_step(
            &mut steps,
            FsStep::Call {
                method: method::SYMLINK,
                params: symlink_params(path.as_str(), target),
            },
        );
        let plan = Plan { steps, reply: FsReply::Attr { path } };
        assert(plan@ =~= before.symlink_plan(parent, name@, target@));
        plan
    }

    /// A new name.
    pub fn rename(
        &mut self,
        parent: u64,
        name: &str,
        newparent: u64,
        newname: &str,
    ) -> (res: Plan)
        requires
            old(self)@.inv(),
            old(self)@.inodes.next < u64::MAX - 1,
        ensures
            final(self)@.inv(),
            final(self)@ == old(self)@.visited(parent, name@).visited(newparent, newname@),
            res@ == old(self)@.visited(parent, name@).rename_plan(
                parent,
                name@,
                newparent,
                newname@,
            ),
    {
        let from = self.child_path(parent, name);
        let ghost after = self@;
        let to = self.child_path(newparent, newname);
        proof {
            lemma_paths_stay(old(self)@, parent, name@);
        }
        let (from, to) = match (from, to) {
            (Some(from), Some(to)) => (from, to),
            _ => {
                return refuse(Errno::ENOENT);
            },
        };
        if self.read_only {
            return refuse(Errno::EROFS);
        }
        let mut paths: Vec<String> = Vec::new();
        paths.push(from.clone());
        paths.push(to.clone());
        assert(texts(paths@) =~= seq![from@, to@]);
        let mut steps = no_steps();
        add_step(&mut steps, FsStep::Drain { paths });
        add_step(&mut steps, FsStep::MakeParent { path: self.cache_path(to.as_str()) });
        add_step(
            &mut steps,
            FsStep::Rename {
                from: self.cache_path(from.as_str()),
                to: self.cache_path(to.as_str()),
            },
        );
        add_step(
            &mut steps,
            FsStep::Call {
                method: method::RENAME,
                params: rename_params(from.as_str(), to.as_str()),
            },
        );
        let plan = Plan { steps, reply: FsReply::Done };
        assert(plan@ =~= after.rename_plan(parent, name@, newparent, newname@));
        plan
    }
}

// ---------------------------------------------------------------------------
// Data
// ---------------------------------------------------------------------------

impl FsView {
    /// Before a file is closed or synced its data must have reached the target.
    pub open spec fn flush_plan(self, ino: u64) -> PlanView {
        PlanView {
            steps: match self.inodes.path_of(ino) {
                Some(path) => seq![drain_of(path)],
                None => Seq::empty(),
            },
            reply: FsReplyView::Done,
        }
    }

    /// What is left is drained, but a release never fails.
    pub open spec fn release_plan(self, ino: u64) -> PlanView {
        PlanView {
            steps: match self.inodes.path_of(ino) {
                Some(path) => seq![FsStepView::Settle { path }],
                None => Seq::empty(),
            },
            reply: FsReplyView::Done,
        }
    }
}

impl RemoteFs {
    /// Before a file is closed or synced: its data must have reached the target.
    pub fn flush(&self, ino: u64) -> (res: Plan)
        ensures
            res@ == self@.flush_plan(ino),
    {
        let mut steps = no_steps();
        if let Some(path) = self.path_for(ino) {
            add_step(&mut steps, drain_step(path.as_str()));
        }
        let plan = Plan { steps, reply: FsReply::Done };
        assert(plan@ =~= self@.flush_plan(ino));
        plan
    }

    /// A file is not used any more.
    pub fn release(&self, ino: u64) -> (res: Plan)
        ensures
            res@ == self@.release_plan(ino),
    {
        let mut steps = no_steps();
        if let Some(path) = self.path_for(ino) {
            add_step(&mut steps, FsStep::Settle { path });
        }
        let plan = Plan { steps, reply: FsReply::Done };
        assert(plan@ =~= self@.release_plan(ino));
        plan
    }

    /// Where the bytes of a write go: the remote path, and the cached file. A
    /// write to the cached file is queued for the target; one that fails is
    /// sent at once by `write_through`.
    pub fn write(&self, ino: u64) -> (res: Result<(String, String), Errno>)
        ensures
            match res {
                Ok((path, local)) => {
                    &&& !self@.read_only
                    &&& self@.inodes.path_of(ino) == Some(path@)
                    &&& local@ == self@.cache_path(path@)
                },
                Err(e) => if self@.inodes.path_of(ino) is None {
                    e == Errno::ENOENT
                } else {
                    self@.read_only && e == Errno::EROFS
                },
            },
    {
        match self.path_for(ino) {
            Some(path) => if self.read_only {
                Err(Errno::EROFS)
            } else {
                let local = self.cache_path(path.as_str());
                Ok((path, local))
            },
            None => Err(Errno::ENOENT),
        }
    }

    /// Start (at most one) background prefetch that warms the local cache for
    /// the rest of a file after a sequential read miss: the remote path and the
    /// cached file, unless one is running.
    pub fn kick_prefetch(&mut self, path: &str) -> (res: Option<(String, String)>)
        requires
            old(self)@.inv(),
        ensures
            final(self)@.inv(),
            final(self)@ == (FsView {
                prefetching: old(self)@.prefetching.insert(normal(path@)),
                ..old(self)@
            }),
            match res {
                Some((remote, local)) => {
                    &&& !old(self)@.prefetching.contains(normal(path@))
                    &&& remote@ == path@
                    &&& local@ == old(self)@.cache_path(path@)
                },
                None => old(self)@.prefetching.contains(normal(path@)),
            },
    {
        let ghost before = self@;
        let key = normalized(path);
        if self.prefetching.contains_key(key.as_str()) {
            assert(before.prefetching.insert(normal(path@)) =~= before.prefetching);
            return None;
        }
        self.prefetching.insert(key, true);
        assert(self@.prefetching =~= before.prefetching.insert(normal(path@)));
        Some((path.to_owned(), self.cache_path(path)))
    }

    /// The prefetch of a file has ended.
    pub fn prefetch_done(&mut self, path: &str)
        requires
            old(self)@.inv(),
        ensures
            final(self)@.inv(),
            final(self)@ == (FsView {
                prefetching: old(self)@.prefetching.remove(normal(path@)),
                ..old(self)@
            }),
    {
        let ghost before = self@;
        self.prefetching.remove(normalized(path).as_str());
        assert(self@.prefetching =~= before.prefetching.remove(normal(path@)));
    }
}

/// The reply to a write of `len` bytes, by whether they could be queued, or else
/// be sent at once: no failure is silent.
pub fn write_reply(len: u32, sent: Result<(), Errno>) -> (res: Result<u32, Errno>)
    ensures
        sent is Ok ==> res == Ok::<u32, Errno>(len),
        sent is Err ==> res == Err::<u32, Errno>(Errno::EIO),
{
    match sent {
        Ok(()) => Ok(len),
        Err(_) => Err(Errno::EIO),
    }
}

/// The call that sends the bytes of a write at once, where they could not be
/// cached (disk full, permissions). `write_reply` is the reply by its answer.
pub fn write_through(path: &str, offset: u64, data: &[u8]) -> (res: FsStep)
    ensures
        res@ == call_of(method::WRITE_AT@, write_at_view(path@, offset, base64_text(data@))),
        res@ == (FsStepView::Call {
            method: "write_at"@,
            params: JsonView::Object(
                map![
                    "path"@ => JsonView::Text(path@),
                    "offset"@ => crate::json::unsigned(offset),
                    "data"@ => JsonView::Text(base64_text(data@)),
                ],
            ),
        }),
{
    FsStep::Call { method: method::WRITE_AT, params: write_at_params(path, offset, data) }
}

// ---------------------------------------------------------------------------
// Attributes
// ---------------------------------------------------------------------------

/// The call that asks for the attributes of a path.
pub fn stat_call(path: &str) -> (res: FsStep)
    ensures
        res@ == call_of(method::STAT@, path_view(path@)),
        res@ == (FsStepView::Call {
            method: "stat"@,
            params: JsonView::Object(map!["path"@ => JsonView::Text(path@)]),
        }),
{
    FsStep::Call { method: method::STAT, params: path_params(path) }
}

/// The call that lists a directory.
pub fn list_call(path: &str) -> (res: FsStep)
    ensures
        res@ == call_of(method::LIST_DIR@, path_view(path@)),
        res@ == (FsStepView::Call {
            method: "list_dir"@,
            params: JsonView::Object(map!["path"@ => JsonView::Text(path@)]),
        }),
{
    FsStep::Call { method: method::LIST_DIR, params: path_params(path) }
}

/// The attributes of a path: those of the target, else those of the cache,
/// else the target's error.
pub open spec fn attr_answer(
    fs: FsView,
    path: Seq<char>,
    remote: Result<StatResult, Errno>,
    local: Option<Metadata>,
) -> Result<FileAttr, Errno> {
    let ino = fs.inodes.number_of(path);
    match remote {
        Ok(stat) => Ok(
            attr_of(
                ino,
                type_of(stat.kind),
                stat.size,
                Some(stat.modified),
                stat.mode,
                stat.uid,
                stat.gid,
            ),
        ),
        Err(e) => match local {
            Some(m) => Ok(
                attr_of(
                    ino,
                    local_type_of(m.is_dir, m.is_symlink),
                    m.size,
                    m.modified,
                    m.mode,
                    m.uid,
                    m.gid,
                ),
            ),
            None => Err(e),
        },
    }
}

impl RemoteFs {
    /// Attributes: of the target while that can be asked, and else of the local
    /// cache. A directory of the target is to be mirrored in the cache.
    pub fn attr_for(
        &mut self,
        path: &str,
        remote: Result<StatResult, Errno>,
        local: Option<Metadata>,
    ) -> (res: Result<(FileAttr, Option<FsStep>), Errno>)
        requires
            old(self)@.inv(),
            old(self)@.inodes.next < u64::MAX,
        ensures
            final(self)@.inv(),
            match res {
                Ok((attr, mirror)) => {
                    &&& attr_answer(old(self)@, path@, remote, local) == Ok::<FileAttr, Errno>(attr)
                    &&& final(self)@ == old(self)@.knowing(path@)
                    &&& match mirror {
                        Some(step) => remote is Ok && attr.kind == FileType::Directory && step@ == (
                        FsStepView::MakeDir { path: old(self)@.cache_path(path@) }),
                        None => remote is Err || attr.kind != FileType::Directory,
                    }
                },
                Err(e) => {
                    &&& attr_answer(old(self)@, path@, remote, local) == Err::<FileAttr, Errno>(e)
                    &&& final(self)@ == old(self)@
                },
            },
            res is Err <==> remote is Err && local is None,
            res is Err ==> res->Err_0 == remote->Err_0,
            res matches Ok((attr, _)) ==> {
                &&& attr.ino == old(self)@.inodes.number_of(path@)
                &&& remote is Ok ==> {
                    &&& attr.size == remote->Ok_0.size
                    &&& attr.modified == Some(remote->Ok_0.modified)
                    &&& attr.perm == remote->Ok_0.mode & 0o7777
                    &&& attr.uid == remote->Ok_0.uid
                    &&& attr.gid == remote->Ok_0.gid
                    &&& attr.kind == FileType::Directory <==> remote->Ok_0.kind == FileKind::Dir
                    &&& attr.kind == FileType::Symlink <==> remote->Ok_0.kind == FileKind::Symlink
                }
                &&& remote is Err ==> {
                    &&& attr.size == local->0.size
                    &&& attr.modified == local->0.modified
                    &&& attr.perm == local->0.mode & 0o7777
                    &&& attr.uid == local->0.uid
                    &&& attr.gid == local->0.gid
                    &&& attr.kind == FileType::Directory <==> local->0.is_dir
                }
            },
    {
        match remote {
            Ok(stat) => {
                let attr = attr_from_stat(&stat, self.ino_for_path(path));
                let mirror = match attr.kind {
                    FileType::Directory => Some(FsStep::MakeDir { path: self.cache_path(path) }),
                    _ => None,
                };
                Ok((attr, mirror))
            },
            Err(e) => match local {
                Some(m) => {
                    let attr = attr_from_metadata(&m, self.ino_for_path(path));
                    Ok((attr, None))
                },
                None => Err(e),
            },
        }
    }
}

/// Where a symlink points to, by the target's answer: one that is no symlink
/// is not valid here.
pub fn readlink(stat: Result<StatResult, Errno>) -> (res: Result<String, Errno>)
    ensures
        match (stat, res) {
            (Ok(s), Ok(t)) => s.link_target is Some && s.link_target->0@ == t@,
            (Ok(s), Err(e)) => s.link_target is None && e == Errno::EINVAL,
            (Err(e), Err(f)) => e == f,
            (Err(_), Ok(_)) => false,
        },
{
    match stat {
        Ok(s) => match s.link_target {
            Some(target) => Ok(target),
            None => Err(Errno::EINVAL),
        },
        Err(e) => Err(e),
    }
}

// ---------------------------------------------------------------------------
// Directories
// ---------------------------------------------------------------------------

/// An entry of a directory: what it is, and its name.
pub type Entry = (FileType, String);

/// An entry, as a mathematical value.
pub type EntryView = (FileType, Seq<char>);

/// Entries by kind and name.
pub open spec fn entry_views(entries: Seq<Entry>) -> Seq<EntryView> {
    entries.map_values(|e: Entry| (e.0, e.1@))
}

/// What the target says to a listing.
#[derive(Debug)]
pub enum Listing {
    Entries(ListDirResult),
    /// The answer cannot be read.
    Malformed,
    /// The target cannot be asked, or refused.
    Refused(Errno),
}

/// The entries of the target's answer.
pub open spec fn listed(list: ListDirResult) -> Seq<EntryView> {
    list.entries@.map_values(|e: crate::protocol::DirEntry| (type_of(e.kind), e.name@))
}

/// The entries of a directory: those of the target, or those of the cache
/// where the target cannot be asked, else the target's error.
pub fn dir_entries(remote: Listing, local: Option<Vec<Entry>>) -> (res: Result<Vec<Entry>, Errno>)
    ensures
        match remote {
            Listing::Entries(list) => res is Ok && entry_views(res->Ok_0@) == listed(list),
            Listing::Malformed => res is Err && res->Err_0 == Errno::EIO,
            Listing::Refused(e) => match local {
                Some(entries) => res is Ok && res->Ok_0@ == entries@,
                None => res is Err && res->Err_0 == e,
            },
        },
        remote matches Listing::Entries(list) ==> {
            &&& res->Ok_0@.len() == list.entries@.len()
            &&& forall|i: int|
                0 <= i < list.entries@.len() ==> (#[trigger] res->Ok_0@[i]).1@
                    == list.entries@[i].name@ && (res->Ok_0@[i].0 == FileType::Directory
                    <==> list.entries@[i].kind == FileKind::Dir) && (res->Ok_0@[i].0
                    == FileType::Symlink <==> list.entries@[i].kind == FileKind::Symlink)
        },
{
    match remote {
        Listing::Entries(list) => {
            let mut out: Vec<Entry> = Vec::new();
            let mut i: usize = 0;
            while i < list.entries.len()
                invariant
                    i <= list.entries@.len(),
                    out@.len() == i,
                    forall|k: int|
                        0 <= k < i ==> ((#[trigger] out@[k]).0, out@[k].1@) == listed(list)[k],
                decreases list.entries@.len() - i,
            {
                let e = &list.entries[i];
                out.push((file_type(e.kind), e.name.clone()));
                i += 1;
            }
            assert(entry_views(out@) =~= listed(list));
            Ok(out)
        },
        Listing::Malformed => Err(Errno::EIO),
        Listing::Refused(e) => match local {
            Some(entries) => Ok(entries),
            None => Err(e),
        },
    }
}

/// A step for each entry that is a directory: it is mirrored in `local_dir`.
pub open spec fn mirrored(local_dir: Seq<char>, entries: Seq<EntryView>) -> Seq<FsStepView>
    decreases entries.len(),
{
    if entries.len() == 0 {
        Seq::empty()
    } else {
        let rest = mirrored(local_dir, entries.drop_last());
        if entries.last().0 == FileType::Directory {
            rest.push(FsStepView::MakeDir { path: joined_path(local_dir, entries.last().1) })
        } else {
            rest
        }
    }
}

/// The steps that mirror the directories among the target's entries.
pub fn mirror_dirs(local_dir: &str, entries: &Vec<Entry>) -> (res: Vec<FsStep>)
    ensures
        steps_view(res@) == mirrored(local_dir@, entry_views(entries@)),
{
    let ghost all = entry_views(entries@);
    let mut steps = no_steps();
    let mut i: usize = 0;
    assert(all.take(0) =~= Seq::<EntryView>::empty());
    while i < entries.len()
        invariant
            i <= entries@.len(),
            all == entry_views(entries@),
            steps_view(steps@) == mirrored(local_dir@, all.take(i as int)),
        decreases entries@.len() - i,
    {
        proof {
            assert(all.take(i + 1).drop_last() =~= all.take(i as int));
            assert(all[i as int] == (entries@[i as int].0, entries@[i as int].1@));
        }
        if let FileType::Directory = entries[i].0 {
            let path = join_path(local_dir, entries[i].1.as_str());
            add_step(&mut steps, FsStep::MakeDir { path });
        }
        i += 1;
    }
    assert(all.take(i as int) =~= all);
    steps
}

/// A line of a listing: the inode, the position of the line that follows, what
/// the entry is, and its name.
#[derive(Debug)]
pub struct DirLine {
    pub ino: u64,
    pub next: u64,
    pub kind: FileType,
    pub name: String,
}

/// A line of a listing, as a mathematical value.
pub struct LineView {
    pub ino: u64,
    pub next: int,
    pub kind: FileType,
    pub name: Seq<char>,
}

impl View for DirLine {
    type V = LineView;

    open spec fn view(&self) -> LineView {
        LineView { ino: self.ino, next: self.next as int, kind: self.kind, name: self.name@ }
    }
}

/// Lines of a listing.
pub open spec fn line_views(lines: Seq<DirLine>) -> Seq<LineView> {
    lines.map_values(|l: DirLine| l@)
}

/// The inode numbers once the first `n` entries of `dir` have one each.
pub open spec fn numbered(m: InodeView, dir: Seq<char>, entries: Seq<EntryView>, n: int) -> InodeView
    decreases n,
{
    if n <= 0 {
        m
    } else {
        numbered(m, dir, entries, n - 1).with(joined_path(dir, entries[n - 1].1))
    }
}

/// The line at position `i` of the listing of `dir`: the directory itself, its
/// parent, which is given the number of the root, and then the entries.
pub open spec fn line_at(
    m: InodeView,
    ino: u64,
    dir: Seq<char>,
    entries: Seq<EntryView>,
    i: int,
) -> LineView {
    if i == 0 {
        LineView { ino, next: 1, kind: FileType::Directory, name: "."@ }
    } else if i == 1 {
        LineView { ino: 1, next: 2, kind: FileType::Directory, name: ".."@ }
    } else {
        let e = entries[i - 2];
        LineView {
            ino: numbered(m, dir, entries, i - 2).number_of(joined_path(dir, e.1)),
            next: i + 1,
            kind: e.0,
            name: e.1,
        }
    }
}

/// The lines of the listing of `dir` from position `offset` on.
pub open spec fn lines_from(
    m: InodeView,
    ino: u64,
    dir: Seq<char>,
    entries: Seq<EntryView>,
    offset: int,
) -> Seq<LineView> {
    let total = entries.len() + 2;
    let n = if offset < total {
        total - offset
    } else {
        0
    };
    Seq::new(n as nat, |k: int| line_at(m, ino, dir, entries, offset + k))
}

/// Each entry needs one number at most.
proof fn lemma_numbered(m: InodeView, dir: Seq<char>, entries: Seq<EntryView>, n: int)
    requires
        m.inv(),
        0 <= n <= entries.len(),
        m.next + n < u64::MAX,
    ensures
        numbered(m, dir, entries, n).inv(),
        numbered(m, dir, entries, n).next <= m.next + n,
    decreases n,
{
    if n > 0 {
        lemma_numbered(m, dir, entries, n - 1);
        lemma_with_keeps_order(
            numbered(m, dir, entries, n - 1),
            joined_path(dir, entries[n - 1].1),
        );
    }
}

impl RemoteFs {
    /// The lines of the listing of the directory `dir`, which has the number
    /// `ino`, from position `offset` on. Every entry gets an inode number.
    pub fn readdir(
        &mut self,
        ino: u64,
        dir: &str,
        entries: Vec<Entry>,
        offset: u64,
    ) -> (res: Vec<DirLine>)
        requires
            old(self)@.inv(),
            old(self)@.inodes.next + entries@.len() < u64::MAX,
            entries@.len() + 3 <= u64::MAX,
        ensures
            final(self)@.inv(),
            final(self)@ == (FsView {
                inodes: numbered(
                    old(self)@.inodes,
                    dir@,
                    entry_views(entries@),
                    entries@.len() as int,
                ),
                ..old(self)@
            }),
            line_views(res@) == lines_from(
                old(self)@.inodes,
                ino,
                dir@,
                entry_views(entries@),
                offset as int,
            ),
    {
        let ghost m = self@.inodes;
        let ghost all = entry_views(entries@);
        let mut out: Vec<DirLine> = Vec::new();
        if offset == 0 {
            out.push(
                DirLine { ino, next: 1, kind: FileType::Directory, name: ".".to_owned() },
            );
        }
        if offset <= 1 {
            out.push(
                DirLine { ino: 1, next: 2, kind: FileType::Directory, name: "..".to_owned() },
            );
        }
        let mut i: usize = 0;
        assert(line_views(out@) =~= lines_upto(m, ino, dir@, all, offset as int, 2));
        let count: usize = entries.len();
        while i < count
            invariant
                count == entries@.len(),
                i <= count,
                count + 3 <= u64::MAX,
                all == entry_views(entries@),
                m.inv(),
                m == old(self)@.inodes,
                m.next + entries@.len() < u64::MAX,
                self@.inv(),
                self@ == (FsView { inodes: numbered(m, dir@, all, i as int), ..old(self)@ }),
                line_views(out@) == lines_upto(m, ino, dir@, all, offset as int, i + 2),
            decreases count - i,
        {
            let ghost before = out@;
            proof {
                lemma_numbered(m, dir@, all, i as int);
                assert(all[i as int] == (entries@[i as int].0, entries@[i as int].1@));
            }
            let path = join_path(dir, entries[i].1.as_str());
            let number = self.ino_for_path(path.as_str());
            let position: u64 = i as u64 + 2;
            if position >= offset {
                out.push(
                    DirLine {
                        ino: number,
                        next: position + 1,
                        kind: entries[i].0,
                        name: entries[i].1.clone(),
                    },
                );
                assert(line_views(out@) =~= line_views(before).push(
                    line_at(m, ino, dir@, all, i + 2),
                ));
            }
            assert(line_views(out@) =~= lines_upto(m, ino, dir@, all, offset as int, i + 3));
            i += 1;
        }
        assert(lines_upto(m, ino, dir@, all, offset as int, all.len() as int + 2) =~= lines_from(
            m,
            ino,
            dir@,
            all,
            offset as int,
        ));
        out
    }
}

/// The lines of the listing from position `offset` up to position `end`.
spec fn lines_upto(
    m: InodeView,
    ino: u64,
    dir: Seq<char>,
    entries: Seq<EntryView>,
    offset: int,
    end: int,
) -> Seq<LineView> {
    let n = if offset < end {
        end - offset
    } else {
        0
    };
    Seq::new(n as nat, |k: int| line_at(m, ino, dir, entries, offset + k))
}

/// Numbering more entries keeps the numbers that there were.
proof fn lemma_numbered_keeps(
    m: InodeView,
    dir: Seq<char>,
    entries: Seq<EntryView>,
    i: int,
    n: int,
    path: Seq<char>,
)
    requires
        m.inv(),
        0 <= i <= n <= entries.len(),
        m.next + n < u64::MAX,
        numbered(m, dir, entries, i).numbers.contains_key(normal(path)),
    ensures
        numbered(m, dir, entries, n).numbers.contains_key(normal(path)),
        numbered(m, dir, entries, n).number_of(path) == numbered(m, dir, entries, i).number_of(
            path,
        ),
    decreases n - i,
{
    if i < n {
        lemma_numbered_keeps(m, dir, entries, i, n - 1, path);
    }
}

/// The state of the inode numbers once the listing has been read, and the paths
/// `between` have been numbered since.
pub open spec fn read_and_numbered(
    m: InodeView,
    dir: Seq<char>,
    entries: Seq<EntryView>,
    between: Seq<Seq<char>>,
) -> InodeView {
    numbered(m, dir, entries, entries.len() as int).with_all(between)
}

/// A listing that is read again later is the same, line by line: whatever else
/// is numbered meanwhile, the entries keep their numbers.
pub proof fn lemma_listing_is_stable(
    m: InodeView,
    ino: u64,
    dir: Seq<char>,
    entries: Seq<EntryView>,
    between: Seq<Seq<char>>,
    offset: int,
)
    requires
        m.inv(),
        0 <= offset,
        m.next + 2 * entries.len() + between.len() < u64::MAX,
    ensures
        read_and_numbered(m, dir, entries, between).inv(),
        lines_from(read_and_numbered(m, dir, entries, between), ino, dir, entries, offset)
            == lines_from(m, ino, dir, entries, offset),
{
    let n = entries.len() as int;
    let all = numbered(m, dir, entries, n);
    let later = read_and_numbered(m, dir, entries, between);
    lemma_numbered(m, dir, entries, n);
    lemma_numbering_keeps_numbers(all, between);
    assert forall|i: int| 2 <= i < n + 2 implies #[trigger] line_at(later, ino, dir, entries, i)
        == line_at(m, ino, dir, entries, i) by {
        let path = joined_path(dir, entries[i - 2].1);
        let here = numbered(m, dir, entries, i - 2);
        assert(numbered(m, dir, entries, i - 1) == here.with(path));
        assert(here.with(path).number_of(path) == here.number_of(path));
        lemma_numbered_keeps(m, dir, entries, i - 1, n, path);
        assert(later.number_of(path) == all.number_of(path));
        lemma_numbered_keeps(later, dir, entries, 0, i - 2, path);
    }
    let one = lines_from(later, ino, dir, entries, offset);
    let two = lines_from(m, ino, dir, entries, offset);
    assert forall|k: int| 0 <= k < one.len() implies one[k] == two[k] by {
        if offset + k >= 2 {
            assert(line_at(later, ino, dir, entries, offset + k) == line_at(
                m,
                ino,
                dir,
                entries,
                offset + k,
            ));
        }
    }
    assert(one =~= two);
}

/// Where a listing goes on when the first `taken` of its lines were accepted: at
/// the position that the last of them names.
pub open spec fn resumed_at(lines: Seq<LineView>, offset: int, taken: int) -> int {
    if taken > 0 {
        lines[taken - 1].next
    } else {
        offset
    }
}

/// How many of `most` lines are accepted.
pub open spec fn accepted(lines: Seq<LineView>, most: nat) -> int {
    if most < lines.len() {
        most as int
    } else {
        lines.len() as int
    }
}

/// What is accepted of a listing that is read in pieces: each call accepts at
/// most so many lines, then paths are numbered, and the next call goes on where
/// that one ended. The last call accepts what is left.
pub open spec fn read_in_pieces(
    m: InodeView,
    ino: u64,
    dir: Seq<char>,
    entries: Seq<EntryView>,
    offset: int,
    calls: Seq<(nat, Seq<Seq<char>>)>,
) -> Seq<LineView>
    decreases calls.len(),
{
    let lines = lines_from(m, ino, dir, entries, offset);
    if calls.len() == 0 {
        lines
    } else {
        let taken = accepted(lines, calls[0].0);
        lines.take(taken) + read_in_pieces(
            read_and_numbered(m, dir, entries, calls[0].1),
            ino,
            dir,
            entries,
            resumed_at(lines, offset, taken),
            calls.drop_first(),
        )
    }
}

/// There are numbers enough for every call.
pub open spec fn can_be_numbered(
    m: InodeView,
    dir: Seq<char>,
    entries: Seq<EntryView>,
    calls: Seq<(nat, Seq<Seq<char>>)>,
) -> bool
    decreases calls.len(),
{
    if calls.len() == 0 {
        m.next + entries.len() < u64::MAX
    } else {
        &&& m.next + 2 * entries.len() + calls[0].1.len() < u64::MAX
        &&& can_be_numbered(
            read_and_numbered(m, dir, entries, calls[0].1),
            dir,
            entries,
            calls.drop_first(),
        )
    }
}

/// A listing that is resumed where the last accepted line says gives every entry
/// exactly once, in its order and with the same number, however many calls it
/// takes and whatever else is numbered between them.
pub proof fn lemma_resumed_listing_is_whole(
    m: InodeView,
    ino: u64,
    dir: Seq<char>,
    entries: Seq<EntryView>,
    offset: int,
    calls: Seq<(nat, Seq<Seq<char>>)>,
)
    requires
        m.inv(),
        0 <= offset,
        can_be_numbered(m, dir, entries, calls),
    ensures
        read_in_pieces(m, ino, dir, entries, offset, calls) == lines_from(
            m,
            ino,
            dir,
            entries,
            offset,
        ),
    decreases calls.len(),
{
    if calls.len() > 0 {
        let lines = lines_from(m, ino, dir, entries, offset);
        let taken = accepted(lines, calls[0].0);
        let later = read_and_numbered(m, dir, entries, calls[0].1);
        let at = resumed_at(lines, offset, taken);
        assert(at == offset + taken) by {
            if taken > 0 {
                assert(lines[taken - 1] == line_at(m, ino, dir, entries, offset + taken - 1));
            }
        }
        lemma_listing_is_stable(m, ino, dir, entries, calls[0].1, at);
        lemma_resumed_listing_is_whole(later, ino, dir, entries, at, calls.drop_first());
        let rest = lines_from(m, ino, dir, entries, at);
        assert forall|k: int| 0 <= k < rest.len() implies rest[k] == lines[taken + k] by {
            assert(at + k == offset + (taken + k));
        }
        assert(lines.take(taken) + rest =~= lines);
    }
}

/// Visiting an entry leaves the paths of all inodes as they are.
proof fn lemma_paths_stay(fs: FsView, parent: u64, name: Seq<char>)
    requires
        fs.inv(),
        fs.inodes.next < u64::MAX,
    ensures
        fs.visited(parent, name).inv(),
        forall|n: u64| #[trigger]
            fs.inodes.paths.contains_key(n) ==> fs.visited(parent, name).inodes.paths.contains_key(
                n,
            ) && fs.visited(parent, name).inodes.paths[n] == fs.inodes.paths[n],
{
    if let Some(path) = fs.child(parent, name) {
        lemma_with_keeps_order(fs.inodes, path);
    }
}

// ---------------------------------------------------------------------------
// Laws of the filesystem
// ---------------------------------------------------------------------------

/// A read-only mount changes, makes and removes nothing: such operations are
/// refused without a step.
pub proof fn lemma_read_only_mount_changes_nothing(
    fs: FsView,
    ino: u64,
    new_mode: Option<u32>,
    size: Option<u64>,
    parent: u64,
    name: Seq<char>,
    newparent: u64,
    newname: Seq<char>,
    mode: u32,
    target: Seq<char>,
)
    requires
        fs.read_only,
    ensures
        fs.setattr_plan(ino, new_mode, size).steps.len() == 0,
        fs.inodes.path_of(ino) is Some && (new_mode is Some || size is Some) ==> fs.setattr_plan(
            ino,
            new_mode,
            size,
        ).reply == (FsReplyView::Error { errno: Errno::EROFS }),
        fs.mknod_plan(parent, name, mode).steps.len() == 0,
        fs.create_plan(parent, name, mode).steps.len() == 0,
        fs.mkdir_plan(parent, name, mode).steps.len() == 0,
        fs.unlink_plan(parent, name).steps.len() == 0,
        fs.rmdir_plan(parent, name).steps.len() == 0,
        fs.symlink_plan(parent, name, target).steps.len() == 0,
        fs.rename_plan(parent, name, newparent, newname).steps.len() == 0,
        fs.child(parent, name) is Some ==> fs.unlink_plan(parent, name).reply == (
        FsReplyView::Error { errno: Errno::EROFS }),
{
}

/// The step at `i` waits for the queued writes of `path`.
pub open spec fn drains(steps: Seq<FsStepView>, i: int, path: Seq<char>) -> bool {
    steps[i] matches FsStepView::Drain { paths } && paths.contains(path)
}

/// Before each call to the target the queued writes of `path` are drained.
pub open spec fn drains_before_calls(steps: Seq<FsStepView>, path: Seq<char>) -> bool {
    forall|i: int|
        0 <= i < steps.len() && (#[trigger] steps[i]) is Call ==> exists|j: int|
            0 <= j < i && #[trigger] drains(steps, j, path)
}

/// Nothing overtakes queued writes: truncating, creating, linking, removing
/// and renaming call the target only after the writes queued for the path have
/// reached it, or not at all.
pub proof fn lemma_changes_do_not_overtake_writes(
    fs: FsView,
    ino: u64,
    size: u64,
    parent: u64,
    name: Seq<char>,
    mode: u32,
    target: Seq<char>,
)
    ensures
        fs.inodes.path_of(ino) is Some ==> drains_before_calls(
            fs.setattr_plan(ino, None, Some(size)).steps,
            fs.inodes.path_of(ino)->0,
        ),
        fs.child(parent, name) is Some ==> {
            let path = fs.child(parent, name)->0;
            &&& drains_before_calls(fs.mknod_plan(parent, name, mode).steps, path)
            &&& drains_before_calls(fs.create_plan(parent, name, mode).steps, path)
            &&& drains_before_calls(fs.unlink_plan(parent, name).steps, path)
            &&& drains_before_calls(fs.rmdir_plan(parent, name).steps, path)
            &&& drains_before_calls(fs.symlink_plan(parent, name, target).steps, path)
        },
{
    if fs.inodes.path_of(ino) is Some {
        let path = fs.inodes.path_of(ino)->0;
        let steps = fs.setattr_plan(ino, None, Some(size)).steps;
        assert(seq![path][0] == path);
        if !fs.read_only {
            assert(drains(steps, 0, path));
        }
    }
    if fs.child(parent, name) is Some {
        let path = fs.child(parent, name)->0;
        assert(seq![path][0] == path);
        if !fs.read_only {
            assert(drains(fs.mknod_plan(parent, name, mode).steps, 3, path));
            assert(drains(fs.create_plan(parent, name, mode).steps, 3, path));
            assert(drains(fs.unlink_plan(parent, name).steps, 0, path));
            assert(drains(fs.rmdir_plan(parent, name).steps, 0, path));
            assert(drains(fs.symlink_plan(parent, name, target).steps, 1, path));
        }
    }
}

/// A rename waits for the writes queued for either path before anything is
/// moved, here or on the target.
pub proof fn lemma_rename_drains_both_paths(
    fs: FsView,
    parent: u64,
    name: Seq<char>,
    newparent: u64,
    newname: Seq<char>,
)
    requires
        fs.child(parent, name) is Some,
        fs.child(newparent, newname) is Some,
        !fs.read_only,
    ensures
        ({
            let steps = fs.rename_plan(parent, name, newparent, newname).steps;
            &&& drains(steps, 0, fs.child(parent, name)->0)
            &&& drains(steps, 0, fs.child(newparent, newname)->0)
        }),
{
    let paths = seq![fs.child(parent, name)->0, fs.child(newparent, newname)->0];
    assert(paths[0] == fs.child(parent, name)->0);
    assert(paths[1] == fs.child(newparent, newname)->0);
}

/// Different paths below the mounted directory are cached in different places.
pub proof fn lemma_cache_paths_differ(fs: FsView, one: Seq<char>, two: Seq<char>)
    requires
        components_of(fs.remote_dir).len() > 0,
        fs.cache_dir.len() > 0,
        below(one, fs.remote_dir) is Some,
        below(two, fs.remote_dir) is Some,
        components_of(one) != components_of(two),
    ensures
        components_of(fs.cache_path(one)) != components_of(fs.cache_path(two)),
{
    let n = components_of(fs.remote_dir).len() as int;
    let base = components_of(fs.cache_dir);
    let a = components_of(one);
    let b = components_of(two);
    lemma_moved_path_keeps_components(one, fs.remote_dir, fs.cache_dir);
    lemma_moved_path_keeps_components(two, fs.remote_dir, fs.cache_dir);
    if base + a.skip(n) == base + b.skip(n) {
        assert((base + a.skip(n)).skip(base.len() as int) =~= a.skip(n));
        assert((base + b.skip(n)).skip(base.len() as int) =~= b.skip(n));
        assert(a =~= a.take(n) + a.skip(n));
        assert(b =~= b.take(n) + b.skip(n));
    }
}

/// Every directory of a listing is mirrored under its name, and nothing else is.
pub proof fn lemma_directories_are_mirrored(local_dir: Seq<char>, entries: Seq<EntryView>)
    ensures
        forall|i: int|
            0 <= i < entries.len() && (#[trigger] entries[i]).0 == FileType::Directory
                ==> mirrored(local_dir, entries).contains(
                FsStepView::MakeDir { path: joined_path(local_dir, entries[i].1) },
            ),
        forall|k: int|
            0 <= k < mirrored(local_dir, entries).len() ==> exists|i: int|
                0 <= i < entries.len() && (#[trigger] entries[i]).0 == FileType::Directory
                    && #[trigger] mirrored(local_dir, entries)[k] == (FsStepView::MakeDir {
                    path: joined_path(local_dir, entries[i].1),
                }),
    decreases entries.len(),
{
    if entries.len() > 0 {
        let front = entries.drop_last();
        lemma_directories_are_mirrored(local_dir, front);
        let rest = mirrored(local_dir, front);
        let all = mirrored(local_dir, entries);
        let last = entries.len() - 1;
        assert forall|i: int|
            0 <= i < entries.len() && (#[trigger] entries[i]).0
                == FileType::Directory implies all.contains(
            FsStepView::MakeDir { path: joined_path(local_dir, entries[i].1) },
        ) by {
            let step = FsStepView::MakeDir { path: joined_path(local_dir, entries[i].1) };
            if i < last {
                assert(front[i] == entries[i]);
                let k = choose|k: int| 0 <= k < rest.len() && rest[k] == step;
                assert(all[k] == step);
            } else {
                assert(all[rest.len() as int] == step);
            }
        }
        assert forall|k: int| 0 <= k < all.len() implies exists|i: int|
            0 <= i < entries.len() && (#[trigger] entries[i]).0 == FileType::Directory
                && #[trigger] all[k] == (FsStepView::MakeDir {
                path: joined_path(local_dir, entries[i].1),
            }) by {
            if k < rest.len() {
                assert(all[k] == rest[k]);
                let i = choose|i: int|
                    0 <= i < front.len() && (#[trigger] front[i]).0 == FileType::Directory
                        && rest[k] == (FsStepView::MakeDir {
                        path: joined_path(local_dir, front[i].1),
                    });
                assert(entries[i] == front[i]);
            } else {
                assert(entries[last].0 == FileType::Directory);
            }
        }
    }
}

/// A listing shows the directory itself, its parent, and every entry once, in
/// their order, each under its name, as what it is, and with the number that its
/// path has from then on. A listing from a later position is the rest of it.
pub proof fn lemma_listing_shows_every_entry(
    m: InodeView,
    ino: u64,
    dir: Seq<char>,
    entries: Seq<EntryView>,
    offset: int,
)
    requires
        m.inv(),
        m.next + entries.len() < u64::MAX,
        0 <= offset <= entries.len() + 2,
    ensures
        ({
            let lines = lines_from(m, ino, dir, entries, 0);
            let after = numbered(m, dir, entries, entries.len() as int);
            &&& lines.len() == entries.len() + 2
            &&& lines[0].name == "."@ && lines[0].kind == FileType::Directory && lines[0].ino == ino
            &&& lines[1].name == ".."@ && lines[1].kind == FileType::Directory && lines[1].ino == 1
            &&& forall|i: int|
                2 <= i < lines.len() ==> (#[trigger] lines[i]).name == entries[i - 2].1
                    && lines[i].kind == entries[i - 2].0 && after.number_of(
                    joined_path(dir, lines[i].name),
                ) == lines[i].ino
            &&& forall|i: int| 0 <= i < lines.len() ==> (#[trigger] lines[i]).next == i + 1
            &&& lines_from(m, ino, dir, entries, offset) == lines.skip(offset)
        }),
{
    let lines = lines_from(m, ino, dir, entries, 0);
    let n = entries.len() as int;
    let after = numbered(m, dir, entries, n);
    assert forall|i: int| 2 <= i < lines.len() implies (#[trigger] lines[i]).name == entries[i
        - 2].1 && lines[i].kind == entries[i - 2].0 && after.number_of(
        joined_path(dir, lines[i].name),
    ) == lines[i].ino by {
        let path = joined_path(dir, entries[i - 2].1);
        let here = numbered(m, dir, entries, i - 2);
        assert(numbered(m, dir, entries, i - 1) == here.with(path));
        lemma_numbered_keeps(m, dir, entries, i - 1, n, path);
    }
    assert(lines_from(m, ino, dir, entries, offset) =~= lines.skip(offset));
}

} // verus!
