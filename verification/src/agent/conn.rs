//! Agent connection: dispatch of requests, and their answers.

use vstd::prelude::*;

use crate::json::{
    as_text, as_unsigned, get, json_text, json_view, member, null, render, signed, text_member,
    u64_member, unsigned, JsonView,
};
use crate::protocol::{code, method, RpcError};
use crate::rpc::{response_frame, response_value};

verus! {

// ---------------------------------------------------------------------------
// Reconnecting
// ---------------------------------------------------------------------------

/// How long to wait before connecting again, in seconds: never less than one.
pub fn retry_secs(reconnect_secs: u64) -> (res: u64)
    ensures
        res == if reconnect_secs == 0 {
            1u64
        } else {
            reconnect_secs
        },
{
    if reconnect_secs == 0 {
        1
    } else {
        reconnect_secs
    }
}

// ---------------------------------------------------------------------------
// Requests
// ---------------------------------------------------------------------------

/// What a request asks the agent to do.
#[derive(Clone, Copy, PartialEq, Eq, Structural, Debug)]
pub enum Operation {
    RunCommand,
    GetCommandResult,
    ReadFile,
    WriteFile,
    ListDir,
    Stat,
    Mkdir,
    Remove,
    Rename,
    Copy,
    WriteAt,
    Truncate,
    Symlink,
    Chmod,
    StreamFile,
    Ping,
}

/// The name of an operation.
pub open spec fn method_of(op: Operation) -> Seq<char> {
    match op {
        Operation::RunCommand => method::RUN_COMMAND@,
        Operation::GetCommandResult => method::GET_COMMAND_RESULT@,
        Operation::ReadFile => method::READ_FILE@,
        Operation::WriteFile => method::WRITE_FILE@,
        Operation::ListDir => method::LIST_DIR@,
        Operation::Stat => method::STAT@,
        Operation::Mkdir => method::MKDIR@,
        Operation::Remove => method::REMOVE@,
        Operation::Rename => method::RENAME@,
        Operation::Copy => method::COPY@,
        Operation::WriteAt => method::WRITE_AT@,
        Operation::Truncate => method::TRUNCATE@,
        Operation::Symlink => method::SYMLINK@,
        Operation::Chmod => method::CHMOD@,
        Operation::StreamFile => method::STREAM_FILE@,
        Operation::Ping => method::PING@,
    }
}

/// The operation with the given name.
fn operation(name: &str) -> (res: Option<Operation>)
    ensures
        match res {
            Some(op) => method_of(op) == name@,
            None => forall|op: Operation| #[trigger] method_of(op) != name@,
        },
{
    if *name == *method::RUN_COMMAND {
        Some(Operation::RunCommand)
    } else if *name == *method::GET_COMMAND_RESULT {
        Some(Operation::GetCommandResult)
    } else if *name == *method::READ_FILE {
        Some(Operation::ReadFile)
    } else if *name == *method::WRITE_FILE {
        Some(Operation::WriteFile)
    } else if *name == *method::LIST_DIR {
        Some(Operation::ListDir)
    } else if *name == *method::STAT {
        Some(Operation::Stat)
    } else if *name == *method::MKDIR {
        Some(Operation::Mkdir)
    } else if *name == *method::REMOVE {
        Some(Operation::Remove)
    } else if *name == *method::RENAME {
        Some(Operation::Rename)
    } else if *name == *method::COPY {
        Some(Operation::Copy)
    } else if *name == *method::WRITE_AT {
        Some(Operation::WriteAt)
    } else if *name == *method::TRUNCATE {
        Some(Operation::Truncate)
    } else if *name == *method::SYMLINK {
        Some(Operation::Symlink)
    } else if *name == *method::CHMOD {
        Some(Operation::Chmod)
    } else if *name == *method::STREAM_FILE {
        Some(Operation::StreamFile)
    } else if *name == *method::PING {
        Some(Operation::Ping)
    } else {
        None
    }
}

/// What is to be done with a frame.
#[derive(Debug)]
pub enum Dispatch {
    /// Nothing: it is not a request.
    Ignore,
    /// Do this and answer under the id.
    Perform { id: u64, op: Operation, params: serde_json::Value },
    /// The answer can be given at once.
    Answer(serde_json::Value),
}

/// The name of the method that a frame asks for; empty where there is none.
pub open spec fn method_named(v: JsonView) -> Seq<char> {
    match as_text(member(v, "method"@)) {
        Some(name) => name,
        None => ""@,
    }
}

/// The params of a frame; null where there are none.
pub open spec fn params_of(v: JsonView) -> JsonView {
    match member(v, "params"@) {
        Some(params) => params,
        None => JsonView::Null,
    }
}

/// The answer to a request for an unknown method.
pub open spec fn unknown_method_frame(id: u64, name: Seq<char>) -> JsonView {
    crate::relay::error_frame(id, code::METHOD_NOT_FOUND, "unknown method: "@ + name)
}

/// `d` is what is done with a frame: a frame without an id is ignored, a
/// request for a known method is performed with its params, and any other
/// request is refused under its id.
pub open spec fn is_dispatch_of(d: Dispatch, v: JsonView) -> bool {
    match as_unsigned(member(v, "id"@)) {
        Some(id) => if exists|op: Operation| #[trigger] method_of(op) == method_named(v) {
            match d {
                Dispatch::Perform { id: given, op, params } => given == id && method_of(op)
                    == method_named(v) && json_view(params) == params_of(v),
                _ => false,
            }
        } else {
            match d {
                Dispatch::Answer(frame) => json_view(frame) == unknown_method_frame(
                    id,
                    method_named(v),
                ),
                _ => false,
            }
        },
        None => d is Ignore,
    }
}

/// What is done with a frame from the bridge.
pub fn dispatch(frame: &serde_json::Value) -> (res: Dispatch)
    ensures
        is_dispatch_of(res, json_view(*frame)),
        res is Ignore <==> as_unsigned(member(json_view(*frame), "id"@)) is None,
        match res {
            Dispatch::Ignore => true,
            Dispatch::Perform { id, op, params } => {
                &&& as_unsigned(member(json_view(*frame), "id"@)) == Some(id)
                &&& as_text(member(json_view(*frame), "method"@)) == Some(method_of(op))
                &&& member(json_view(*frame), "params"@) is Some ==> json_view(params) == member(
                    json_view(*frame),
                    "params"@,
                )->0
                &&& member(json_view(*frame), "params"@) is None ==> json_view(params)
                    == JsonView::Null
            },
            Dispatch::Answer(answer) => {
                &&& forall|op: Operation| #[trigger]
                    method_of(op) != method_named(json_view(*frame))
                &&& json_view(answer) == JsonView::Object(
                    map![
                        "jsonrpc"@ => JsonView::Text("2.0"@),
                        "id"@ => unsigned(as_unsigned(member(json_view(*frame), "id"@))->0),
                        "error"@ => JsonView::Object(
                            map![
                                "code"@ => signed(-32601i64),
                                "message"@ => JsonView::Text(
                                    "unknown method: "@ + method_named(json_view(*frame)),
                                ),
                            ],
                        ),
                    ],
                )
            },
        },
{
    let id = match u64_member(frame, "id") {
        Some(id) => id,
        None => {
            return Dispatch::Ignore;
        },
    };
    let name = match text_member(frame, "method") {
        Some(name) => name,
        None => "".to_owned(),
    };
    match operation(name.as_str()) {
        Some(op) => {
            let params = match get(frame, "params") {
                Some(params) => params.clone(),
                None => null(),
            };
            proof {
                lemma_operations_have_names(op);
                assert(method_of(op) == method_named(json_view(*frame)));
            }
            Dispatch::Perform { id, op, params }
        },
        None => {
            let mut message = "unknown method: ".to_owned();
            message.append(name.as_str());
            let error = RpcError::new(code::METHOD_NOT_FOUND, message.as_str());
            let frame = response_value(id, None, Some(error));
            assert(json_view(frame) =~= unknown_method_frame(id, name@));
            Dispatch::Answer(frame)
        },
    }
}

/// The answer to a request: its result, or why it failed.
pub open spec fn answer_frame(id: u64, result: Result<JsonView, Seq<char>>) -> JsonView {
    match result {
        Ok(v) => response_frame(id, Some(v), None),
        Err(e) => crate::relay::error_frame(id, code::INTERNAL_ERROR, e),
    }
}

/// What was done, by its JSON value or the reason why it failed.
pub open spec fn result_view(r: Result<serde_json::Value, String>) -> Result<JsonView, Seq<char>> {
    match r {
        Ok(v) => Ok(json_view(v)),
        Err(e) => Err(e@),
    }
}

/// The text of the answer to the request `id`.
pub fn send_response(id: u64, result: Result<serde_json::Value, String>) -> (res: String)
    ensures
        res@ == json_text(answer_frame(id, result_view(result))),
        result is Ok ==> res@ == json_text(
            JsonView::Object(
                map![
                    "jsonrpc"@ => JsonView::Text("2.0"@),
                    "id"@ => unsigned(id),
                    "result"@ => json_view(result->Ok_0),
                ],
            ),
        ),
        result is Err ==> res@ == json_text(
            JsonView::Object(
                map![
                    "jsonrpc"@ => JsonView::Text("2.0"@),
                    "id"@ => unsigned(id),
                    "error"@ => JsonView::Object(
                        map![
                            "code"@ => signed(-32603i64),
                            "message"@ => JsonView::Text(result->Err_0@),
                        ],
                    ),
                ],
            ),
        ),
{
    match result {
        Ok(v) => render(&response_value(id, Some(v), None)),
        Err(e) => {
            let error = RpcError::new(code::INTERNAL_ERROR, e.as_str());
            let frame = response_value(id, None, Some(error));
            assert(json_view(frame) =~= answer_frame(id, Err(e@)));
            render(&frame)
        },
    }
}

/// The text of a notification.
pub fn send_notification(name: &str, params: serde_json::Value) -> (res: String)
    ensures
        res@ == json_text(crate::rpc::notification_frame(name@, json_view(params))),
{
    render(&crate::rpc::notification_value(name, params))
}

// ---------------------------------------------------------------------------
// Laws of requests
// ---------------------------------------------------------------------------

/// No operation is asked for without a name.
proof fn lemma_operations_have_names(op: Operation)
    ensures
        method_of(op) != ""@,
{
    reveal_strlit("");
    reveal_strlit("run_command");
    reveal_strlit("get_command_result");
    reveal_strlit("read_file");
    reveal_strlit("write_file");
    reveal_strlit("list_dir");
    reveal_strlit("stat");
    reveal_strlit("mkdir");
    reveal_strlit("remove");
    reveal_strlit("rename");
    reveal_strlit("copy");
    reveal_strlit("write_at");
    reveal_strlit("truncate");
    reveal_strlit("symlink");
    reveal_strlit("chmod");
    reveal_strlit("stream_file");
    reveal_strlit("ping");
    assert(""@.len() == 0);
    assert(method_of(op).len() > 0);
}

/// The name under which each operation is asked for.
pub proof fn lemma_operations_are_asked_for_by_name(op: Operation)
    ensures
        method_of(op) == match op {
            Operation::RunCommand => "run_command"@,
            Operation::GetCommandResult => "get_command_result"@,
            Operation::ReadFile => "read_file"@,
            Operation::WriteFile => "write_file"@,
            Operation::ListDir => "list_dir"@,
            Operation::Stat => "stat"@,
            Operation::Mkdir => "mkdir"@,
            Operation::Remove => "remove"@,
            Operation::Rename => "rename"@,
            Operation::Copy => "copy"@,
            Operation::WriteAt => "write_at"@,
            Operation::Truncate => "truncate"@,
            Operation::Symlink => "symlink"@,
            Operation::Chmod => "chmod"@,
            Operation::StreamFile => "stream_file"@,
            Operation::Ping => "ping"@,
        },
{
}

/// Every answer that the agent gives echoes the id of the request, and is an
/// answer by the relay's rule.
pub proof fn lemma_answers_echo_the_id(
    id: u64,
    result: Result<JsonView, Seq<char>>,
    name: Seq<char>,
)
    ensures
        as_unsigned(member(answer_frame(id, result), "id"@)) == Some(id),
        crate::relay::is_response(answer_frame(id, result)),
        as_unsigned(member(unknown_method_frame(id, name), "id"@)) == Some(id),
        crate::relay::is_response(unknown_method_frame(id, name)),
{
    reveal_strlit("id");
    reveal_strlit("method");
    reveal_strlit("jsonrpc");
    reveal_strlit("result");
    reveal_strlit("error");
    assert("id"@.len() == 2 && "method"@.len() == 6 && "jsonrpc"@.len() == 7);
    assert("result"@[0] == 'r' && "error"@[0] == 'e' && "method"@[0] == 'm');
    assert("error"@.len() == 5 && "result"@.len() == 6);
}

} // verus!
