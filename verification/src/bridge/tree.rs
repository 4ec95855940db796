//! What the plans of a mount do to the directory tree of the target, and to the
//! entry of the cache that stands for a path.
//!
//! Calls are read here as the target reads them: by the name of the method and
//! the members of the params.

use vstd::prelude::*;

use crate::bridge::attrs::Errno;
use crate::bridge::fuse_fs::{FsReplyView, FsStepView, FsView, PlanView};
use crate::bridge::transfer::resized;
use crate::json::{as_text, as_truth, as_unsigned, member, JsonView};
use crate::path::joined_path;

verus! {

// ---------------------------------------------------------------------------
// Trees
// ---------------------------------------------------------------------------

/// What an entry is.
pub enum Kind {
    Dir,
    File { bytes: Seq<u8> },
    Link { target: Seq<char> },
}

/// An entry of a tree; where `mode` is none, it has the permissions that it was
/// made with.
pub struct Node {
    pub kind: Kind,
    pub mode: Option<u64>,
}

/// The entries of a machine, by path.
pub type Tree = Map<Seq<char>, Node>;

/// A text member of params.
pub open spec fn text_of(params: JsonView, key: Seq<char>) -> Seq<char> {
    as_text(member(params, key))->0
}

/// What a call does to the entries that it names.
pub open spec fn called(
    before: Tree,
    name: Seq<char>,
    params: JsonView,
    after: Tree,
) -> bool {
    let path = text_of(params, "path"@);
    &&& name == "remove"@ && as_truth(member(params, "recursive"@)) == Some(false) ==> after
        == before.remove(path)
    &&& name == "mkdir"@ ==> after == before.insert(
        path,
        Node { kind: Kind::Dir, mode: as_unsigned(member(params, "mode"@)) },
    )
    &&& name == "chmod"@ ==> after == before.insert(
        path,
        Node { mode: as_unsigned(member(params, "mode"@)), ..before[path] },
    )
    &&& name == "truncate"@ && before[path].kind is File ==> after == before.insert(
        path,
        Node {
            kind: Kind::File {
                bytes: resized(
                    before[path].kind->bytes,
                    as_unsigned(member(params, "size"@))->0 as int,
                ),
            },
            ..before[path]
        },
    )
    &&& name == "write_file"@ && as_text(member(params, "data"@)) == Some(""@) ==> after
        == before.insert(
        path,
        Node {
            kind: Kind::File { bytes: Seq::empty() },
            mode: if before.contains_key(path) {
                before[path].mode
            } else {
                None
            },
        },
    )
    &&& name == "symlink"@ ==> after == before.insert(
        text_of(params, "link"@),
        Node { kind: Kind::Link { target: text_of(params, "target"@) }, mode: None },
    )
    &&& name == "rename"@ ==> after == before.remove(text_of(params, "from"@)).insert(
        text_of(params, "to"@),
        before[text_of(params, "from"@)],
    )
}

/// What a step does to the tree of the target: only calls reach it.
pub open spec fn performed(before: Tree, step: FsStepView, after: Tree) -> bool {
    match step {
        FsStepView::Call { method, params } => called(before, method, params, after),
        _ => after == before,
    }
}

/// The trees that the target has while the steps are carried out, one before
/// each step and one at the end.
pub open spec fn carried_out(trees: Seq<Tree>, steps: Seq<FsStepView>) -> bool {
    &&& trees.len() == steps.len() + 1
    &&& forall|i: int|
        0 <= i < steps.len() ==> performed(trees[i], #[trigger] steps[i], trees[i + 1])
}

/// What a step does to the entry of the cache at `place`: as it was, unless the
/// step names it.
pub open spec fn cached(before: Option<Node>, step: FsStepView, place: Seq<char>) -> Option<Node> {
    match step {
        FsStepView::MakeDir { path } => if path == place {
            Some(Node { kind: Kind::Dir, mode: None })
        } else {
            before
        },
        FsStepView::CreateFile { path } => if path == place {
            Some(Node { kind: Kind::File { bytes: Seq::empty() }, mode: None })
        } else {
            before
        },
        FsStepView::SetMode { path, mode } => if path == place && before is Some {
            Some(Node { mode: Some(mode as u64), ..before->0 })
        } else {
            before
        },
        FsStepView::SetLen { path, len } => if path == place && before is Some
            && before->0.kind is File {
            Some(
                Node {
                    kind: Kind::File { bytes: resized(before->0.kind->bytes, len as int) },
                    ..before->0
                },
            )
        } else {
            before
        },
        FsStepView::RemoveFile { path } => if path == place {
            None
        } else {
            before
        },
        FsStepView::RemoveDir { path } => if path == place {
            None
        } else {
            before
        },
        FsStepView::MakeSymlink { target, link } => if link == place {
            Some(Node { kind: Kind::Link { target }, mode: None })
        } else {
            before
        },
        FsStepView::Rename { from, to } => if from == place && from != to {
            None
        } else {
            before
        },
        _ => before,
    }
}

/// The entry of the cache at `place` once the steps have been carried out.
pub open spec fn all_cached(
    before: Option<Node>,
    steps: Seq<FsStepView>,
    place: Seq<char>,
) -> Option<Node>
    decreases steps.len(),
{
    if steps.len() == 0 {
        before
    } else {
        cached(all_cached(before, steps.drop_last(), place), steps.last(), place)
    }
}

/// Before a file is made at `place`, or moved there, the directory that it is in
/// is made.
pub open spec fn makes_parent_first(steps: Seq<FsStepView>, place: Seq<char>) -> bool {
    forall|i: int|
        0 <= i < steps.len() && (#[trigger] steps[i] == (FsStepView::CreateFile { path: place }) || (
        steps[i] is Rename && steps[i]->to == place)) ==> exists|j: int|
            0 <= j < i && #[trigger] steps[j] == (FsStepView::MakeParent { path: place })
}

/// The names of members are told apart.
proof fn lemma_names_differ()
    ensures
        "path"@ != "recursive"@,
        "path"@ != "mode"@,
        "path"@ != "size"@,
        "path"@ != "data"@,
        "path"@ != "create_dirs"@,
        "data"@ != "create_dirs"@,
        "link"@ != "target"@,
        "from"@ != "to"@,
{
    reveal_strlit("path");
    reveal_strlit("recursive");
    reveal_strlit("mode");
    reveal_strlit("size");
    reveal_strlit("data");
    reveal_strlit("create_dirs");
    reveal_strlit("link");
    reveal_strlit("target");
    reveal_strlit("from");
    reveal_strlit("to");
    assert("path"@[0] != "mode"@[0]);
    assert("path"@[0] != "size"@[0]);
    assert("path"@[0] != "data"@[0]);
    assert("link"@.len() != "target"@.len());
    assert("from"@.len() != "to"@.len());
}

// ---------------------------------------------------------------------------
// Laws of changes
// ---------------------------------------------------------------------------

/// The last two trees of a plan whose last step is its only call.
proof fn lemma_only_last_step_calls(trees: Seq<Tree>, steps: Seq<FsStepView>)
    requires
        steps.len() > 0,
        carried_out(trees, steps),
        forall|i: int| 0 <= i < steps.len() - 1 ==> !((#[trigger] steps[i]) is Call),
    ensures
        performed(trees[0], steps.last(), trees.last()),
{
    let n = steps.len() - 1;
    lemma_still(trees, steps, n);
    assert(performed(trees[n], steps[n], trees[n + 1]));
}

/// Steps that are no calls leave the target as it is.
proof fn lemma_still(trees: Seq<Tree>, steps: Seq<FsStepView>, n: int)
    requires
        carried_out(trees, steps),
        0 <= n <= steps.len(),
        forall|i: int| 0 <= i < n ==> !((#[trigger] steps[i]) is Call),
    ensures
        trees[n] == trees[0],
    decreases n,
{
    if n > 0 {
        lemma_still(trees, steps, n - 1);
        assert(performed(trees[n - 1], steps[n - 1], trees[n - 1 + 1]));
    }
}

/// The end of a directory: once the plan has been carried out, the directory is
/// gone on the target and nothing else has changed there; its place in the cache
/// is empty too.
pub proof fn lemma_rmdir_removes_the_directory(
    fs: FsView,
    parent: u64,
    name: Seq<char>,
    trees: Seq<Tree>,
    cache: Option<Node>,
)
    requires
        !fs.read_only,
        fs.inodes.path_of(parent) is Some,
        carried_out(trees, fs.rmdir_plan(parent, name).steps),
    ensures
        ({
            let path = joined_path(fs.inodes.path_of(parent)->0, name);
            let plan = fs.rmdir_plan(parent, name);
            &&& trees.last() == trees[0].remove(path)
            &&& all_cached(cache, plan.steps, fs.cache_path(path)) is None
            &&& plan.reply == FsReplyView::Done
            &&& plan.steps[0] == (FsStepView::Drain { paths: seq![path] })
        }),
{
    let steps = fs.rmdir_plan(parent, name).steps;
    lemma_names_differ();
    lemma_only_last_step_calls(trees, steps);
    reveal_with_fuel(all_cached, 4);
}

/// The end of a file: once the plan has been carried out, the file is gone on the
/// target and nothing else has changed there; its place in the cache is empty
/// too.
pub proof fn lemma_unlink_removes_the_file(
    fs: FsView,
    parent: u64,
    name: Seq<char>,
    trees: Seq<Tree>,
    cache: Option<Node>,
)
    requires
        !fs.read_only,
        fs.inodes.path_of(parent) is Some,
        carried_out(trees, fs.unlink_plan(parent, name).steps),
    ensures
        ({
            let path = joined_path(fs.inodes.path_of(parent)->0, name);
            let plan = fs.unlink_plan(parent, name);
            &&& trees.last() == trees[0].remove(path)
            &&& all_cached(cache, plan.steps, fs.cache_path(path)) is None
            &&& plan.reply == FsReplyView::Done
            &&& plan.steps[0] == (FsStepView::Drain { paths: seq![path] })
        }),
{
    let steps = fs.unlink_plan(parent, name).steps;
    lemma_names_differ();
    lemma_only_last_step_calls(trees, steps);
    reveal_with_fuel(all_cached, 4);
}

/// A new directory: once the plan has been carried out, it is on the target with
/// the permissions that were asked for, nothing else has changed there, and it is
/// in the cache. The reply is about it.
pub proof fn lemma_mkdir_makes_the_directory(
    fs: FsView,
    parent: u64,
    name: Seq<char>,
    mode: u32,
    trees: Seq<Tree>,
    cache: Option<Node>,
)
    requires
        !fs.read_only,
        fs.inodes.path_of(parent) is Some,
        carried_out(trees, fs.mkdir_plan(parent, name, mode).steps),
    ensures
        ({
            let path = joined_path(fs.inodes.path_of(parent)->0, name);
            let plan = fs.mkdir_plan(parent, name, mode);
            let entry = all_cached(cache, plan.steps, fs.cache_path(path));
            &&& trees.last() == trees[0].insert(
                path,
                Node { kind: Kind::Dir, mode: Some(mode as u64) },
            )
            &&& entry is Some && entry->0.kind == Kind::Dir
            &&& plan.reply == (FsReplyView::Attr { path })
        }),
{
    let steps = fs.mkdir_plan(parent, name, mode).steps;
    lemma_names_differ();
    lemma_only_last_step_calls(trees, steps);
    reveal_with_fuel(all_cached, 3);
}

/// A new symlink: once the plan has been carried out, it points on the target
/// where it was asked to, nothing else has changed there, and so it does in the
/// cache. The reply is about the link.
pub proof fn lemma_symlink_makes_the_link(
    fs: FsView,
    parent: u64,
    name: Seq<char>,
    target: Seq<char>,
    trees: Seq<Tree>,
    cache: Option<Node>,
)
    requires
        !fs.read_only,
        fs.inodes.path_of(parent) is Some,
        carried_out(trees, fs.symlink_plan(parent, name, target).steps),
    ensures
        ({
            let path = joined_path(fs.inodes.path_of(parent)->0, name);
            let plan = fs.symlink_plan(parent, name, target);
            let link = Node { kind: Kind::Link { target }, mode: None };
            &&& trees.last() == trees[0].insert(path, link)
            &&& all_cached(cache, plan.steps, fs.cache_path(path)) == Some(link)
            &&& plan.reply == (FsReplyView::Attr { path })
        }),
{
    let steps = fs.symlink_plan(parent, name, target).steps;
    lemma_names_differ();
    lemma_only_last_step_calls(trees, steps);
    reveal_with_fuel(all_cached, 4);
}

/// A new name: once the plan has been carried out, what stood at the old path
/// stands at the new one on the target, nothing else has changed there, and the
/// old place in the cache is empty, its entry moved to the new one.
pub proof fn lemma_rename_moves_the_entry(
    fs: FsView,
    parent: u64,
    name: Seq<char>,
    newparent: u64,
    newname: Seq<char>,
    trees: Seq<Tree>,
    cache: Option<Node>,
)
    requires
        !fs.read_only,
        fs.inodes.path_of(parent) is Some,
        fs.inodes.path_of(newparent) is Some,
        carried_out(trees, fs.rename_plan(parent, name, newparent, newname).steps),
    ensures
        ({
            let from = joined_path(fs.inodes.path_of(parent)->0, name);
            let to = joined_path(fs.inodes.path_of(newparent)->0, newname);
            let plan = fs.rename_plan(parent, name, newparent, newname);
            &&& trees.last() == trees[0].remove(from).insert(to, trees[0][from])
            &&& fs.cache_path(from) != fs.cache_path(to) ==> all_cached(
                cache,
                plan.steps,
                fs.cache_path(from),
            ) is None
            &&& plan.steps.contains(
                FsStepView::Rename { from: fs.cache_path(from), to: fs.cache_path(to) },
            )
            &&& forall|i: int|
                0 <= i < plan.steps.len() && (#[trigger] plan.steps[i]) is Rename ==> plan.steps[i]
                    == (FsStepView::Rename { from: fs.cache_path(from), to: fs.cache_path(to) })
            &&& makes_parent_first(plan.steps, fs.cache_path(to))
            &&& plan.reply == FsReplyView::Done
        }),
{
    let steps = fs.rename_plan(parent, name, newparent, newname).steps;
    lemma_names_differ();
    lemma_only_last_step_calls(trees, steps);
    reveal_with_fuel(all_cached, 5);
    let from = joined_path(fs.inodes.path_of(parent)->0, name);
    let to = joined_path(fs.inodes.path_of(newparent)->0, newname);
    assert(steps[2] == (FsStepView::Rename { from: fs.cache_path(from), to: fs.cache_path(to) }));
}

/// A new file: once the plan has been carried out, there is an empty file on the
/// target, nothing else has changed there, and the cache has one too, with the
/// permissions that were asked for. The reply is about the file.
pub proof fn lemma_mknod_makes_an_empty_file(
    fs: FsView,
    parent: u64,
    name: Seq<char>,
    mode: u32,
    trees: Seq<Tree>,
    cache: Option<Node>,
)
    requires
        !fs.read_only,
        fs.inodes.path_of(parent) is Some,
        carried_out(trees, fs.mknod_plan(parent, name, mode).steps),
        !trees[0].contains_key(joined_path(fs.inodes.path_of(parent)->0, name)),
    ensures
        ({
            let path = joined_path(fs.inodes.path_of(parent)->0, name);
            let plan = fs.mknod_plan(parent, name, mode);
            let empty = Kind::File { bytes: Seq::empty() };
            &&& trees.last() == trees[0].insert(path, Node { kind: empty, mode: None })
            &&& all_cached(cache, plan.steps, fs.cache_path(path)) == Some(
                Node { kind: empty, mode: Some(mode as u64) },
            )
            &&& makes_parent_first(plan.steps, fs.cache_path(path))
            &&& plan.reply == (FsReplyView::Attr { path })
        }),
{
    let steps = fs.mknod_plan(parent, name, mode).steps;
    lemma_names_differ();
    lemma_only_last_step_calls(trees, steps);
    reveal_with_fuel(all_cached, 6);
}

/// A new file that is opened: once the plan has been carried out, there is an
/// empty file on the target with the permissions that were asked for, nothing
/// else has changed there, and the cache has the same. The reply is about the
/// file.
pub proof fn lemma_create_makes_an_empty_file(
    fs: FsView,
    parent: u64,
    name: Seq<char>,
    mode: u32,
    trees: Seq<Tree>,
    cache: Option<Node>,
)
    requires
        !fs.read_only,
        fs.inodes.path_of(parent) is Some,
        carried_out(trees, fs.create_plan(parent, name, mode).steps),
    ensures
        ({
            let path = joined_path(fs.inodes.path_of(parent)->0, name);
            let plan = fs.create_plan(parent, name, mode);
            let file = Node {
                kind: Kind::File { bytes: Seq::empty() },
                mode: Some(mode as u64),
            };
            &&& trees.last() == trees[0].insert(path, file)
            &&& all_cached(cache, plan.steps, fs.cache_path(path)) == Some(file)
            &&& makes_parent_first(plan.steps, fs.cache_path(path))
            &&& plan.reply == (FsReplyView::Attr { path })
        }),
{
    let steps = fs.create_plan(parent, name, mode).steps;
    let path = joined_path(fs.inodes.path_of(parent)->0, name);
    lemma_names_differ();
    lemma_still(trees, steps, 4);
    assert(performed(trees[4], steps[4], trees[5]));
    assert(performed(trees[5], steps[5], trees[6]));
    assert(trees.last() =~= trees[0].insert(
        path,
        Node { kind: Kind::File { bytes: Seq::empty() }, mode: Some(mode as u64) },
    ));
    reveal_with_fuel(all_cached, 7);
}

/// New attributes: once the plan has been carried out, the file has the length
/// and the permissions that were asked for, on the target and in the cache, and
/// what was not asked for is as it was. Nothing else has changed on the target.
/// The reply is about the file.
pub proof fn lemma_setattr_sets_what_was_asked_for(
    fs: FsView,
    ino: u64,
    mode: Option<u32>,
    size: Option<u64>,
    trees: Seq<Tree>,
    cache: Node,
)
    requires
        !fs.read_only,
        fs.inodes.path_of(ino) is Some,
        carried_out(trees, fs.setattr_plan(ino, mode, size).steps),
        trees[0].contains_key(fs.inodes.path_of(ino)->0),
        trees[0][fs.inodes.path_of(ino)->0].kind is File,
        cache.kind is File,
    ensures
        ({
            let path = fs.inodes.path_of(ino)->0;
            let plan = fs.setattr_plan(ino, mode, size);
            &&& trees.last() == trees[0].insert(path, with_attrs(trees[0][path], mode, size))
            &&& all_cached(Some(cache), plan.steps, fs.cache_path(path)) == Some(
                with_attrs(cache, mode, size),
            )
            &&& plan.reply == (FsReplyView::Attr { path })
        }),
{
    let path = fs.inodes.path_of(ino)->0;
    let steps = fs.setattr_plan(ino, mode, size).steps;
    lemma_names_differ();
    let n: int = if size is Some {
        3
    } else {
        0
    };
    if size is Some {
        assert(performed(trees[0], steps[0], trees[1]));
        assert(performed(trees[1], steps[1], trees[2]));
        assert(performed(trees[2], steps[2], trees[3]));
    }
    if mode is Some {
        assert(performed(trees[n], steps[n], trees[n + 1]));
        assert(performed(trees[n + 1], steps[n + 1], trees[n + 1 + 1]));
    }
    assert(trees.last() =~= trees[0].insert(path, with_attrs(trees[0][path], mode, size)));
    reveal_with_fuel(all_cached, 6);
}

/// A file with another length and other permissions, where they are given.
pub open spec fn with_attrs(file: Node, mode: Option<u32>, size: Option<u64>) -> Node {
    Node {
        kind: match size {
            Some(size) => Kind::File { bytes: resized(file.kind->bytes, size as int) },
            None => file.kind,
        },
        mode: match mode {
            Some(mode) => Some(mode as u64),
            None => file.mode,
        },
    }
}

/// The plan does nothing and fails with `errno`.
pub open spec fn fails_with(plan: PlanView, errno: Errno) -> bool {
    plan.steps.len() == 0 && plan.reply == (FsReplyView::Error { errno })
}

/// What cannot be named is not there, and what cannot be written to is
/// read-only: every change of an entry of an unknown directory fails with
/// `ENOENT`, and every other one on a read-only mount with `EROFS`, and nothing
/// is done.
pub proof fn lemma_changes_are_refused(
    fs: FsView,
    ino: u64,
    new_mode: Option<u32>,
    size: Option<u64>,
    parent: u64,
    name: Seq<char>,
    newparent: u64,
    newname: Seq<char>,
    mode: u32,
    target: Seq<char>,
)
    ensures
        fs.inodes.path_of(parent) is None ==> {
            &&& fails_with(fs.mknod_plan(parent, name, mode), Errno::ENOENT)
            &&& fails_with(fs.create_plan(parent, name, mode), Errno::ENOENT)
            &&& fails_with(fs.mkdir_plan(parent, name, mode), Errno::ENOENT)
            &&& fails_with(fs.unlink_plan(parent, name), Errno::ENOENT)
            &&& fails_with(fs.rmdir_plan(parent, name), Errno::ENOENT)
            &&& fails_with(fs.symlink_plan(parent, name, target), Errno::ENOENT)
            &&& fails_with(fs.rename_plan(parent, name, newparent, newname), Errno::ENOENT)
        },
        fs.inodes.path_of(newparent) is None ==> fails_with(
            fs.rename_plan(parent, name, newparent, newname),
            Errno::ENOENT,
        ),
        fs.inodes.path_of(ino) is None ==> fails_with(
            fs.setattr_plan(ino, new_mode, size),
            Errno::ENOENT,
        ),
        fs.read_only && fs.inodes.path_of(parent) is Some ==> {
            &&& fails_with(fs.mknod_plan(parent, name, mode), Errno::EROFS)
            &&& fails_with(fs.create_plan(parent, name, mode), Errno::EROFS)
            &&& fails_with(fs.mkdir_plan(parent, name, mode), Errno::EROFS)
            &&& fails_with(fs.unlink_plan(parent, name), Errno::EROFS)
            &&& fails_with(fs.rmdir_plan(parent, name), Errno::EROFS)
            &&& fails_with(fs.symlink_plan(parent, name, target), Errno::EROFS)
            &&& fs.inodes.path_of(newparent) is Some ==> fails_with(
                fs.rename_plan(parent, name, newparent, newname),
                Errno::EROFS,
            )
        },
        fs.read_only && fs.inodes.path_of(ino) is Some && (new_mode is Some || size is Some)
            ==> fails_with(fs.setattr_plan(ino, new_mode, size), Errno::EROFS),
        fs.inodes.path_of(ino) is Some && new_mode is None && size is None ==> fs.setattr_plan(
            ino,
            new_mode,
            size,
        ) == (PlanView {
            steps: Seq::empty(),
            reply: FsReplyView::Attr { path: fs.inodes.path_of(ino)->0 },
        }),
{
    assert(Seq::<FsStepView>::empty() + Seq::<FsStepView>::empty() =~= Seq::<FsStepView>::empty());
}

/// Before a file is closed its queued writes, and no others, are waited for; a
/// release waits for them too but cannot fail. A file that is not known has
/// nothing to wait for.
pub proof fn lemma_closing_waits_for_the_writes_of_the_file(fs: FsView, ino: u64)
    ensures
        fs.flush_plan(ino).reply == FsReplyView::Done,
        fs.release_plan(ino).reply == FsReplyView::Done,
        fs.inodes.path_of(ino) is None ==> fs.flush_plan(ino).steps.len() == 0
            && fs.release_plan(ino).steps.len() == 0,
        fs.inodes.path_of(ino) is Some ==> {
            let path = fs.inodes.path_of(ino)->0;
            &&& fs.flush_plan(ino).steps == seq![FsStepView::Drain { paths: seq![path] }]
            &&& fs.release_plan(ino).steps == seq![FsStepView::Settle { path }]
        },
{
}

} // verus!
