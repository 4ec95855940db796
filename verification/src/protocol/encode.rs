//! The JSON values of the messages that are sent.

use vstd::prelude::*;

use crate::json::{
    json_view, json_views, new_object, null, of_array, of_bool, of_i64, of_text, of_u64, put,
    signed, unsigned, JsonView,
};
use crate::protocol::{
    CommandFinishedNotification, CommandOutputNotification, DirEntry, FileKind, GetCommandResult,
    Hello, ListDirResult, PeerKind, PingResult, ReadFileResult, RunCommandResult, StatResult,
    WriteFileResult,
};

verus! {

/// The members of an object, to add to.
pub open spec fn no_members() -> Map<Seq<char>, JsonView> {
    Map::empty()
}

/// The members with one more text.
pub open spec fn with_text(m: Map<Seq<char>, JsonView>, key: Seq<char>, text: Seq<char>) -> Map<
    Seq<char>,
    JsonView,
> {
    m.insert(key, JsonView::Text(text))
}

/// An optional exit status: the number, or null.
pub open spec fn exit_view(c: Option<i32>) -> JsonView {
    match c {
        Some(c) => signed(c as i64),
        None => JsonView::Null,
    }
}

fn exit_value(c: Option<i32>) -> (res: serde_json::Value)
    ensures
        json_view(res) == exit_view(c),
        c is None ==> json_view(res) == JsonView::Null,
        c is Some ==> json_view(res) == signed(c->0 as i64),
{
    match c {
        Some(c) => of_i64(c as i64),
        None => null(),
    }
}

/// The first message of a peer.
pub open spec fn hello_view(h: Hello) -> JsonView {
    let m = with_text(
        with_text(
            with_text(
                no_members(),
                "kind"@,
                match h.kind {
                    PeerKind::Bridge => "bridge"@,
                    PeerKind::Agent => "agent"@,
                },
            ),
            "id"@,
            h.id@,
        ),
        "name"@,
        h.name@,
    );
    JsonView::Object(
        match h.token {
            Some(t) => with_text(m, "token"@, t@),
            None => m,
        },
    )
}

/// The JSON value of a `Hello`; the token only where there is one.
pub fn hello_value(h: &Hello) -> (res: serde_json::Value)
    ensures
        json_view(res) == hello_view(*h),
        ({
            let m = map![
                "kind"@ => JsonView::Text(if h.kind == PeerKind::Agent { "agent"@ } else { "bridge"@ }),
                "id"@ => JsonView::Text(h.id@),
                "name"@ => JsonView::Text(h.name@),
            ];
            &&& h.token is None ==> json_view(res) == JsonView::Object(m)
            &&& h.token is Some ==> json_view(res) == JsonView::Object(
                m.insert("token"@, JsonView::Text(h.token->0@)),
            )
        }),
{
    let mut v = new_object();
    put(
        &mut v,
        "kind",
        of_text(
            match h.kind {
                PeerKind::Bridge => "bridge",
                PeerKind::Agent => "agent",
            },
        ),
    );
    put(&mut v, "id", of_text(h.id.as_str()));
    put(&mut v, "name", of_text(h.name.as_str()));
    if let Some(t) = &h.token {
        put(&mut v, "token", of_text(t.as_str()));
    }
    v
}

/// The result of a command.
pub open spec fn run_result_view(r: RunCommandResult) -> JsonView {
    let m = with_text(
        no_members().insert("exit_code"@, exit_view(r.exit_code)).insert(
            "timed_out"@,
            JsonView::Bool(r.timed_out),
        ),
        "output"@,
        r.output@,
    );
    JsonView::Object(
        match r.execution_id {
            Some(id) => m.insert("execution_id"@, unsigned(id)),
            None => m,
        },
    )
}

/// The JSON value of a command's result; the execution id only where there is
/// one.
pub fn run_result_value(r: &RunCommandResult) -> (res: serde_json::Value)
    ensures
        json_view(res) == run_result_view(*r),
        ({
            let m = map![
                "exit_code"@ => exit_view(r.exit_code),
                "timed_out"@ => JsonView::Bool(r.timed_out),
                "output"@ => JsonView::Text(r.output@),
            ];
            &&& r.execution_id is None ==> json_view(res) == JsonView::Object(m)
            &&& r.execution_id is Some ==> json_view(res) == JsonView::Object(
                m.insert("execution_id"@, unsigned(r.execution_id->0)),
            )
        }),
{
    let mut v = new_object();
    put(&mut v, "exit_code", exit_value(r.exit_code));
    put(&mut v, "timed_out", of_bool(r.timed_out));
    put(&mut v, "output", of_text(r.output.as_str()));
    if let Some(id) = r.execution_id {
        put(&mut v, "execution_id", of_u64(id));
    }
    v
}

/// The state of a command that runs in the background.
pub open spec fn command_state_view(r: GetCommandResult) -> JsonView {
    JsonView::Object(
        with_text(
            no_members().insert("done"@, JsonView::Bool(r.done)).insert(
                "exit_code"@,
                exit_view(r.exit_code),
            ).insert("timed_out"@, crate::json::opt_bool(r.timed_out)),
            "output"@,
            r.output@,
        ),
    )
}

/// The JSON value of the state of a command.
pub fn command_state_value(r: &GetCommandResult) -> (res: serde_json::Value)
    ensures
        json_view(res) == command_state_view(*r),
        json_view(res) == JsonView::Object(
            map![
                "done"@ => JsonView::Bool(r.done),
                "exit_code"@ => exit_view(r.exit_code),
                "timed_out"@ => crate::json::opt_bool(r.timed_out),
                "output"@ => JsonView::Text(r.output@),
            ],
        ),
{
    let mut v = new_object();
    put(&mut v, "done", of_bool(r.done));
    put(&mut v, "exit_code", exit_value(r.exit_code));
    put(&mut v, "timed_out", crate::json::of_opt_bool(r.timed_out));
    put(&mut v, "output", of_text(r.output.as_str()));
    v
}

/// Bytes that were read.
pub open spec fn read_result_view(r: ReadFileResult) -> JsonView {
    JsonView::Object(
        with_text(no_members(), "data"@, r.data@).insert("eof"@, JsonView::Bool(r.eof)),
    )
}

/// The JSON value of bytes that were read.
pub fn read_result_value(r: &ReadFileResult) -> (res: serde_json::Value)
    ensures
        json_view(res) == read_result_view(*r),
        json_view(res) == JsonView::Object(
            map!["data"@ => JsonView::Text(r.data@), "eof"@ => JsonView::Bool(r.eof)],
        ),
{
    let mut v = new_object();
    put(&mut v, "data", of_text(r.data.as_str()));
    put(&mut v, "eof", of_bool(r.eof));
    v
}

/// How many bytes were written.
pub open spec fn write_result_view(r: WriteFileResult) -> JsonView {
    JsonView::Object(no_members().insert("bytes_written"@, unsigned(r.bytes_written)))
}

/// The JSON value of how many bytes were written.
pub fn write_result_value(r: &WriteFileResult) -> (res: serde_json::Value)
    ensures
        json_view(res) == write_result_view(*r),
        json_view(res) == JsonView::Object(map!["bytes_written"@ => unsigned(r.bytes_written)]),
{
    let mut v = new_object();
    put(&mut v, "bytes_written", of_u64(r.bytes_written));
    v
}

/// The name of a kind of file.
pub open spec fn kind_name(k: FileKind) -> Seq<char> {
    match k {
        FileKind::File => "file"@,
        FileKind::Dir => "dir"@,
        FileKind::Symlink => "symlink"@,
        FileKind::Other => "other"@,
    }
}

fn kind_text(k: FileKind) -> (res: &'static str)
    ensures
        res@ == kind_name(k),
        k == FileKind::File ==> res@ == "file"@,
        k == FileKind::Dir ==> res@ == "dir"@,
        k == FileKind::Symlink ==> res@ == "symlink"@,
        k == FileKind::Other ==> res@ == "other"@,
{
    match k {
        FileKind::File => "file",
        FileKind::Dir => "dir",
        FileKind::Symlink => "symlink",
        FileKind::Other => "other",
    }
}

/// An entry of a directory.
pub open spec fn entry_view(e: DirEntry) -> JsonView {
    JsonView::Object(
        with_text(with_text(no_members(), "name"@, e.name@), "kind"@, kind_name(e.kind)).insert(
            "size"@,
            unsigned(e.size),
        ).insert("modified"@, unsigned(e.modified)),
    )
}

fn entry_value(e: &DirEntry) -> (res: serde_json::Value)
    ensures
        json_view(res) == entry_view(*e),
        json_view(res) == JsonView::Object(
            map![
                "name"@ => JsonView::Text(e.name@),
                "kind"@ => JsonView::Text(kind_name(e.kind)),
                "size"@ => unsigned(e.size),
                "modified"@ => unsigned(e.modified),
            ],
        ),
{
    let mut v = new_object();
    put(&mut v, "name", of_text(e.name.as_str()));
    put(&mut v, "kind", of_text(kind_text(e.kind)));
    put(&mut v, "size", of_u64(e.size));
    put(&mut v, "modified", of_u64(e.modified));
    v
}

/// The entries of a directory.
pub open spec fn list_result_view(r: ListDirResult) -> JsonView {
    JsonView::Object(
        no_members().insert(
            "entries"@,
            JsonView::Array(r.entries@.map_values(|e: DirEntry| entry_view(e))),
        ),
    )
}

/// The JSON value of the entries of a directory.
pub fn list_result_value(r: &ListDirResult) -> (res: serde_json::Value)
    ensures
        json_view(res) == list_result_view(*r),
        json_view(res) == JsonView::Object(
            map![
                "entries"@ => JsonView::Array(
                    Seq::new(r.entries@.len(), |i: int| entry_view(r.entries@[i])),
                ),
            ],
        ),
{
    let ghost views = r.entries@.map_values(|e: DirEntry| entry_view(e));
    let mut items: Vec<serde_json::Value> = Vec::new();
    let mut i: usize = 0;
    while i < r.entries.len()
        invariant
            i <= r.entries@.len(),
            items@.len() == i,
            views == r.entries@.map_values(|e: DirEntry| entry_view(e)),
            forall|k: int| 0 <= k < i ==> json_view(#[trigger] items@[k]) == views[k],
        decreases r.entries@.len() - i,
    {
        items.push(entry_value(&r.entries[i]));
        i += 1;
    }
    assert(json_views(items@) =~= views);
    assert(views =~= Seq::new(r.entries@.len(), |i: int| entry_view(r.entries@[i])));
    let mut v = new_object();
    put(&mut v, "entries", of_array(items));
    v
}

/// The metadata of a path.
pub open spec fn stat_result_view(r: StatResult) -> JsonView {
    let m = with_text(no_members(), "kind"@, kind_name(r.kind)).insert(
        "size"@,
        unsigned(r.size),
    ).insert("modified"@, unsigned(r.modified)).insert("mode"@, unsigned(r.mode as u64)).insert(
        "uid"@,
        unsigned(r.uid as u64),
    ).insert("gid"@, unsigned(r.gid as u64));
    JsonView::Object(
        match r.link_target {
            Some(t) => with_text(m, "link_target"@, t@),
            None => m,
        },
    )
}

/// The JSON value of the metadata of a path; the link target only where there
/// is one.
pub fn stat_result_value(r: &StatResult) -> (res: serde_json::Value)
    ensures
        json_view(res) == stat_result_view(*r),
        ({
            let m = map![
                "kind"@ => JsonView::Text(kind_name(r.kind)),
                "size"@ => unsigned(r.size),
                "modified"@ => unsigned(r.modified),
                "mode"@ => unsigned(r.mode as u64),
                "uid"@ => unsigned(r.uid as u64),
                "gid"@ => unsigned(r.gid as u64),
            ];
            &&& r.link_target is None ==> json_view(res) == JsonView::Object(m)
            &&& r.link_target is Some ==> json_view(res) == JsonView::Object(
                m.insert("link_target"@, JsonView::Text(r.link_target->0@)),
            )
        }),
{
    let mut v = new_object();
    put(&mut v, "kind", of_text(kind_text(r.kind)));
    put(&mut v, "size", of_u64(r.size));
    put(&mut v, "modified", of_u64(r.modified));
    put(&mut v, "mode", of_u64(r.mode as u64));
    put(&mut v, "uid", of_u64(r.uid as u64));
    put(&mut v, "gid", of_u64(r.gid as u64));
    if let Some(t) = &r.link_target {
        put(&mut v, "link_target", of_text(t.as_str()));
    }
    v
}

/// The answer to a health check.
pub open spec fn ping_result_view(r: PingResult) -> JsonView {
    JsonView::Object(
        with_text(
            no_members().insert("ok"@, JsonView::Bool(r.ok)),
            "hostname"@,
            r.hostname@,
        ).insert("pid"@, unsigned(r.pid as u64)),
    )
}

/// The JSON value of the answer to a health check.
pub fn ping_result_value(r: &PingResult) -> (res: serde_json::Value)
    ensures
        json_view(res) == ping_result_view(*r),
        json_view(res) == JsonView::Object(
            map![
                "ok"@ => JsonView::Bool(r.ok),
                "hostname"@ => JsonView::Text(r.hostname@),
                "pid"@ => unsigned(r.pid as u64),
            ],
        ),
{
    let mut v = new_object();
    put(&mut v, "ok", of_bool(r.ok));
    put(&mut v, "hostname", of_text(r.hostname.as_str()));
    put(&mut v, "pid", of_u64(r.pid as u64));
    v
}

/// Output of a command.
pub open spec fn output_view(n: CommandOutputNotification) -> JsonView {
    JsonView::Object(
        with_text(
            with_text(no_members().insert("id"@, unsigned(n.id)), "stream"@, n.stream@),
            "data"@,
            n.data@,
        ),
    )
}

/// The JSON value of output of a command.
pub fn output_value(n: &CommandOutputNotification) -> (res: serde_json::Value)
    ensures
        json_view(res) == output_view(*n),
        json_view(res) == JsonView::Object(
            map![
                "id"@ => unsigned(n.id),
                "stream"@ => JsonView::Text(n.stream@),
                "data"@ => JsonView::Text(n.data@),
            ],
        ),
{
    let mut v = new_object();
    put(&mut v, "id", of_u64(n.id));
    put(&mut v, "stream", of_text(n.stream.as_str()));
    put(&mut v, "data", of_text(n.data.as_str()));
    v
}

/// The end of a command.
pub open spec fn finished_view(n: CommandFinishedNotification) -> JsonView {
    JsonView::Object(
        no_members().insert("id"@, unsigned(n.id)).insert(
            "exit_code"@,
            exit_view(n.exit_code),
        ).insert("timed_out"@, JsonView::Bool(n.timed_out)),
    )
}

/// The JSON value of the end of a command.
pub fn finished_value(n: &CommandFinishedNotification) -> (res: serde_json::Value)
    ensures
        json_view(res) == finished_view(*n),
        json_view(res) == JsonView::Object(
            map![
                "id"@ => unsigned(n.id),
                "exit_code"@ => exit_view(n.exit_code),
                "timed_out"@ => JsonView::Bool(n.timed_out),
            ],
        ),
{
    let mut v = new_object();
    put(&mut v, "id", of_u64(n.id));
    put(&mut v, "exit_code", exit_value(n.exit_code));
    put(&mut v, "timed_out", of_bool(n.timed_out));
    v
}

} // verus!
