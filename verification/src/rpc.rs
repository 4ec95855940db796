//! JSON-RPC 2.0 framing shared by relay, agent, and bridge.

use vstd::prelude::*;

use crate::json::{
    as_array, as_i64, as_signed, as_str, as_text, as_unsigned, get, is_null, is_plain,
    json_parsed, json_text, json_view, member, new_object, null, of_i64, of_text, of_u64,
    opt_json_view, parse, put, raw_value_key, readable_depth, reads_as, render, signed,
    u64_member, unsigned, JsonView,
};
use crate::protocol::{
    code, Hello, HelloAck, Notification, Request, Response, RpcError, SessionId,
};
use crate::text::{
    chars_of, ends_with, first_index_of, has_suffix, lemma_first_index_is, lemma_first_index_of,
    owned, slice_text, trim_end_char, without_trailing,
};

verus! {

/// A decoded JSON-RPC message as seen by the relay.
#[derive(Debug, Clone)]
pub enum RelayFrame {
    /// `hello` from a peer; params is a `Hello`.
    Hello { params: Hello },
    /// `hello_ack` from the relay; params is a `HelloAck`.
    HelloAck { params: HelloAck },
    /// A request; params is a `Request`.
    Request { params: Request },
    /// A response; params is a `Response`.
    Response { params: Response },
    /// A notification; params is a `Notification`.
    Notification { params: Notification },
}

// ---------------------------------------------------------------------------
// Frames
// ---------------------------------------------------------------------------

/// A request frame.
pub open spec fn request_frame(id: u64, method: Seq<char>, params: JsonView) -> JsonView {
    JsonView::Object(
        Map::<Seq<char>, JsonView>::empty().insert("jsonrpc"@, JsonView::Text("2.0"@)).insert(
            "id"@,
            unsigned(id),
        ).insert("method"@, JsonView::Text(method)).insert("params"@, params),
    )
}

/// A notification frame.
pub open spec fn notification_frame(method: Seq<char>, params: JsonView) -> JsonView {
    JsonView::Object(
        Map::<Seq<char>, JsonView>::empty().insert("jsonrpc"@, JsonView::Text("2.0"@)).insert(
            "method"@,
            JsonView::Text(method),
        ).insert("params"@, params),
    )
}

/// An error as a JSON object; `data` only where there is some.
pub open spec fn error_view(e: RpcError) -> JsonView {
    let m = Map::<Seq<char>, JsonView>::empty().insert("code"@, signed(e.code)).insert(
        "message"@,
        JsonView::Text(e.message@),
    );
    match e.data {
        Some(d) => JsonView::Object(m.insert("data"@, json_view(d))),
        None => JsonView::Object(m),
    }
}

/// A response frame; `result` and `error` only where there is one.
pub open spec fn response_frame(
    id: u64,
    result: Option<JsonView>,
    error: Option<JsonView>,
) -> JsonView {
    let m = Map::<Seq<char>, JsonView>::empty().insert(
        "jsonrpc"@,
        JsonView::Text("2.0"@),
    ).insert("id"@, unsigned(id));
    let m = match result {
        Some(r) => m.insert("result"@, r),
        None => m,
    };
    let m = match error {
        Some(e) => m.insert("error"@, e),
        None => m,
    };
    JsonView::Object(m)
}

/// What an optional error is as a JSON object.
pub open spec fn opt_error_view(e: Option<RpcError>) -> Option<JsonView> {
    match e {
        Some(e) => Some(error_view(e)),
        None => None,
    }
}

/// Build a JSON-RPC request value.
pub fn request_value(id: u64, method: &str, params: serde_json::Value) -> (res: serde_json::Value)
    ensures
        json_view(res) == request_frame(id, method@, json_view(params)),
        json_view(res) == JsonView::Object(
            map![
                "jsonrpc"@ => JsonView::Text("2.0"@),
                "id"@ => unsigned(id),
                "method"@ => JsonView::Text(method@),
                "params"@ => json_view(params),
            ],
        ),
{
    let mut value = new_object();
    put(&mut value, "jsonrpc", of_text("2.0"));
    put(&mut value, "id", of_u64(id));
    put(&mut value, "method", of_text(method));
    put(&mut value, "params", params);
    value
}

/// Build a JSON-RPC notification value.
pub fn notification_value(method: &str, params: serde_json::Value) -> (res: serde_json::Value)
    ensures
        json_view(res) == notification_frame(method@, json_view(params)),
        json_view(res) == JsonView::Object(
            map![
                "jsonrpc"@ => JsonView::Text("2.0"@),
                "method"@ => JsonView::Text(method@),
                "params"@ => json_view(params),
            ],
        ),
{
    let mut value = new_object();
    put(&mut value, "jsonrpc", of_text("2.0"));
    put(&mut value, "method", of_text(method));
    put(&mut value, "params", params);
    value
}

/// An error as a JSON value.
pub fn error_value(error: RpcError) -> (res: serde_json::Value)
    ensures
        json_view(res) == error_view(error),
        ({
            let m = map![
                "code"@ => signed(error.code),
                "message"@ => JsonView::Text(error.message@),
            ];
            &&& error.data is None ==> json_view(res) == JsonView::Object(m)
            &&& error.data is Some ==> json_view(res) == JsonView::Object(
                m.insert("data"@, json_view(error.data->0)),
            )
        }),
{
    let mut value = new_object();
    put(&mut value, "code", of_i64(error.code));
    put(&mut value, "message", of_text(error.message.as_str()));
    if let Some(data) = error.data {
        put(&mut value, "data", data);
    }
    value
}

/// Build a JSON-RPC response value.
pub fn response_value(
    id: u64,
    result: Option<serde_json::Value>,
    error: Option<RpcError>,
) -> (res: serde_json::Value)
    ensures
        json_view(res) == response_frame(id, opt_json_view(result), opt_error_view(error)),
        ({
            let m = map!["jsonrpc"@ => JsonView::Text("2.0"@), "id"@ => unsigned(id)];
            &&& result is None && error is None ==> json_view(res) == JsonView::Object(m)
            &&& result is Some && error is None ==> json_view(res) == JsonView::Object(
                m.insert("result"@, json_view(result->0)),
            )
            &&& result is None && error is Some ==> json_view(res) == JsonView::Object(
                m.insert("error"@, error_view(error->0)),
            )
        }),
{
    let mut value = new_object();
    put(&mut value, "jsonrpc", of_text("2.0"));
    put(&mut value, "id", of_u64(id));
    if let Some(result) = result {
        put(&mut value, "result", result);
    }
    if let Some(error) = error {
        put(&mut value, "error", error_value(error));
    }
    value
}

/// A plain value, nested less deep than can be read back.
pub open spec fn fits(v: JsonView) -> bool {
    is_plain(v, (readable_depth() - 1) as nat)
}

/// A frame round parts that fit can be read back.
proof fn lemma_frames_are_plain(
    id: u64,
    method: Seq<char>,
    params: JsonView,
    result: Option<JsonView>,
    error: Option<JsonView>,
)
    ensures
        fits(params) ==> is_plain(request_frame(id, method, params), readable_depth()),
        fits(params) ==> is_plain(notification_frame(method, params), readable_depth()),
        (result is Some ==> fits(result->0)) && (error is Some ==> fits(error->0)) ==> is_plain(
            response_frame(id, result, error),
            readable_depth(),
        ),
{
    let d = (readable_depth() - 1) as nat;
    reveal_strlit("$serde_json::private::RawValue");
    reveal_strlit("jsonrpc");
    reveal_strlit("id");
    reveal_strlit("method");
    reveal_strlit("params");
    reveal_strlit("result");
    reveal_strlit("error");
    assert(raw_value_key().len() == 30);
    assert("jsonrpc"@.len() == 7 && "id"@.len() == 2 && "method"@.len() == 6);
    assert("params"@.len() == 6 && "result"@.len() == 6 && "error"@.len() == 5);
    assert(is_plain(JsonView::Text("2.0"@), d));
    assert(is_plain(JsonView::Text(method), d));
    assert(is_plain(unsigned(id), d));
}

// ---------------------------------------------------------------------------
// Answers
// ---------------------------------------------------------------------------

/// What a response says to the request `id`: nothing where it is for another,
/// else its error where it has one, else its result, which is null where it
/// has none.
pub open spec fn answer_in(v: JsonView, id: u64) -> Option<Result<JsonView, JsonView>> {
    if as_unsigned(member(v, "id"@)) != Some(id) {
        None
    } else {
        match member(v, "error"@) {
            Some(e) => Some(Err(e)),
            None => Some(
                Ok(
                    match member(v, "result"@) {
                        Some(r) => r,
                        None => JsonView::Null,
                    },
                ),
            ),
        }
    }
}

/// `e` stands for an error that cannot be read.
pub open spec fn is_malformed_error(e: RpcError) -> bool {
    e.code == code::INTERNAL_ERROR && e.message@ == "malformed error response"@ && e.data is None
}

/// A part of an error: a member of an object, or the item at the member's place
/// in an array of code, message and data.
pub open spec fn error_part(v: JsonView, name: Seq<char>, at: int) -> Option<JsonView> {
    match v {
        JsonView::Array(items) => if items.len() == 3 {
            Some(items[at])
        } else {
            None
        },
        _ => member(v, name),
    }
}

/// `e` is the error that `v` is, as a JSON object or as an array of its parts: a
/// code and a message, and data where there is some that is not null.
pub open spec fn is_error_in(e: RpcError, v: JsonView) -> bool {
    match (
        as_signed(error_part(v, "code"@, 0)),
        as_text(error_part(v, "message"@, 1)),
    ) {
        (Some(c), Some(m)) => {
            &&& e.code == c
            &&& e.message@ == m
            &&& opt_json_view(e.data) == match error_part(v, "data"@, 2) {
                Some(JsonView::Null) => None,
                data => data,
            }
        },
        _ => is_malformed_error(e),
    }
}

/// A part of an error.
fn part<'a>(value: &'a serde_json::Value, name: &str, at: usize) -> (res: Option<
    &'a serde_json::Value,
>)
    requires
        at < 3,
    ensures
        match res {
            Some(v) => error_part(json_view(*value), name@, at as int) == Some(json_view(*v)),
            None => error_part(json_view(*value), name@, at as int) is None,
        },
{
    match as_array(value) {
        Some(items) => if items.len() == 3 {
            Some(&items[at])
        } else {
            None
        },
        None => get(value, name),
    }
}

/// The error for a response whose error cannot be read.
pub fn malformed_error() -> (res: RpcError)
    ensures
        is_malformed_error(res),
        res.code == -32603,
        res.message@ == "malformed error response"@,
        res.data is None,
{
    RpcError::new(code::INTERNAL_ERROR, "malformed error response")
}

/// The error of a response.
pub fn read_error(value: &serde_json::Value) -> (res: RpcError)
    ensures
        is_error_in(res, json_view(*value)),
        ({
            let v = json_view(*value);
            let known = as_signed(member(v, "code"@)) is Some && as_text(member(v, "message"@))
                is Some;
            &&& v is Object && known ==> res.code == as_signed(member(v, "code"@))->0
                && res.message@ == as_text(member(v, "message"@))->0
            &&& v is Object && known && member(v, "data"@) is None ==> res.data is None
            &&& v is Object && !known ==> res.code == -32603 && res.message@
                == "malformed error response"@ && res.data is None
            &&& !(v is Object) && !(v is Array) ==> res.code == -32603 && res.message@
                == "malformed error response"@ && res.data is None
        }),
{
    let given = match part(value, "code", 0) {
        Some(c) => as_i64(c),
        None => None,
    };
    let message = match part(value, "message", 1) {
        Some(m) => owned(as_str(m)),
        None => None,
    };
    match (given, message) {
        (Some(c), Some(m)) => {
            let data = match part(value, "data", 2) {
                Some(d) => if is_null(d) {
                    None
                } else {
                    Some(d.clone())
                },
                None => None,
            };
            RpcError { code: c, message: m, data }
        },
        _ => malformed_error(),
    }
}

/// A response answers the request whose id it carries, with the result or the
/// error that it was made of, and no other request.
pub proof fn lemma_response_is_the_answer(
    id: u64,
    other: u64,
    result: JsonView,
    error: JsonView,
)
    requires
        other != id,
    ensures
        answer_in(response_frame(id, Some(result), None), id) == Some(
            Ok::<JsonView, JsonView>(result),
        ),
        answer_in(response_frame(id, None, Some(error)), id) == Some(
            Err::<JsonView, JsonView>(error),
        ),
        answer_in(response_frame(id, Some(result), None), other) is None,
        answer_in(response_frame(id, None, Some(error)), other) is None,
{
    reveal_strlit("id");
    reveal_strlit("jsonrpc");
    reveal_strlit("result");
    reveal_strlit("error");
    assert("id"@.len() == 2 && "jsonrpc"@.len() == 7);
    assert("result"@.len() == 6 && "error"@.len() == 5);
}

/// An error is read back as it was written, but for data that is null, which
/// is read as none.
pub proof fn lemma_error_is_read_back(e: RpcError, read: RpcError)
    requires
        is_error_in(read, error_view(e)),
    ensures
        read.code == e.code,
        read.message@ == e.message@,
        opt_json_view(read.data) == if opt_json_view(e.data) == Some(JsonView::Null) {
            None
        } else {
            opt_json_view(e.data)
        },
{
    reveal_strlit("code");
    reveal_strlit("message");
    reveal_strlit("data");
    assert("message"@.len() == 7);
    assert("code"@.len() == 4 && "data"@.len() == 4);
    assert("code"@[0] == 'c' && "data"@[0] == 'd');
}

// ---------------------------------------------------------------------------
// The wire
// ---------------------------------------------------------------------------

/// A raw JSON-RPC value as it goes over the wire. Plain values come back as
/// they were.
pub fn send_frame(value: &serde_json::Value) -> (res: String)
    ensures
        res@ == json_text(json_view(*value)),
        is_plain(json_view(*value), readable_depth()) ==> reads_as(res@, json_view(*value)),
{
    render(value)
}

/// What came over the wire.
#[derive(Debug)]
pub enum WireMessage {
    Text(String),
    Binary,
    /// A ping, a pong or a raw frame.
    Control,
    Close,
}

/// What a message holds.
#[derive(Debug)]
pub enum FrameRead {
    /// A JSON-RPC message.
    Frame(serde_json::Value),
    /// Nothing that can be read, and why.
    Invalid(String),
    /// Nothing yet: read on.
    Again,
    /// The clean end.
    Closed,
}

/// `r` is what the message `m` holds; none stands for the end of the stream.
pub open spec fn is_read_from(r: FrameRead, m: Option<WireMessage>) -> bool {
    match m {
        Some(WireMessage::Text(text)) => match json_parsed(text@) {
            Ok(v) => r is Frame && json_view(r->Frame_0) == v,
            Err(e) => r is Invalid && r->Invalid_0@ == "invalid JSON-RPC frame: "@ + e,
        },
        Some(WireMessage::Binary) => r is Invalid && r->Invalid_0@
            == "binary frames are not supported"@,
        Some(WireMessage::Control) => r is Again,
        Some(WireMessage::Close) => r is Closed,
        None => r is Closed,
    }
}

/// Read one JSON-RPC message from the wire.
pub fn read_frame(message: Option<WireMessage>) -> (res: FrameRead)
    ensures
        is_read_from(res, message),
        res is Closed <==> message is None || message->0 is Close,
        res is Again <==> message is Some && message->0 is Control,
        res is Frame <==> message is Some && message->0 is Text && json_parsed(
            message->0->Text_0@,
        ) is Ok,
        res is Frame ==> json_view(res->Frame_0) == json_parsed(message->0->Text_0@)->Ok_0,
        res is Invalid && message->0 is Binary ==> res->Invalid_0@
            == "binary frames are not supported"@,
        res is Invalid && message->0 is Text ==> res->Invalid_0@ == "invalid JSON-RPC frame: "@
            + json_parsed(message->0->Text_0@)->Err_0,
{
    match message {
        Some(WireMessage::Text(text)) => match parse(text.as_str()) {
            Ok(v) => FrameRead::Frame(v),
            Err(e) => {
                let mut reason = "invalid JSON-RPC frame: ".to_owned();
                reason.append(e.as_str());
                FrameRead::Invalid(reason)
            },
        },
        Some(WireMessage::Binary) => FrameRead::Invalid(
            "binary frames are not supported".to_owned(),
        ),
        Some(WireMessage::Control) => FrameRead::Again,
        Some(WireMessage::Close) => FrameRead::Closed,
        None => FrameRead::Closed,
    }
}

/// A connected peer (bridge or agent).
#[derive(Debug)]
pub struct Peer {
    pub hello: Hello,
    pub session: SessionId,
}

impl Peer {
    pub fn new(hello: Hello, session: SessionId) -> (res: Self)
        ensures
            res.hello == hello,
            res.session == session,
    {
        Self { hello, session }
    }

    /// The text of a JSON-RPC request.
    pub fn request(&self, id: u64, method: &str, params: serde_json::Value) -> (res: String)
        ensures
            res@ == json_text(request_frame(id, method@, json_view(params))),
            fits(json_view(params)) ==> reads_as(
                res@,
                request_frame(id, method@, json_view(params)),
            ),
    {
        proof {
            lemma_frames_are_plain(id, method@, json_view(params), None, None);
        }
        render(&request_value(id, method, params))
    }

    /// What the frame is to the request `id`: its answer, where it echoes the
    /// id, or nothing, and the request waits on.
    pub fn answered(id: u64, frame: &serde_json::Value) -> (res: Option<
        Result<serde_json::Value, RpcError>,
    >)
        ensures
            match (res, answer_in(json_view(*frame), id)) {
                (None, None) => true,
                (Some(Ok(v)), Some(Ok(result))) => json_view(v) == result,
                (Some(Err(e)), Some(Err(error))) => is_error_in(e, error),
                _ => false,
            },
            res is Some <==> as_unsigned(member(json_view(*frame), "id"@)) == Some(id),
            res is Some ==> (res->0 is Err <==> member(json_view(*frame), "error"@) is Some),
            res is Some && res->0 is Ok && member(json_view(*frame), "result"@) is Some
                ==> json_view(res->0->Ok_0) == member(json_view(*frame), "result"@)->0,
            res is Some && res->0 is Ok && member(json_view(*frame), "result"@) is None
                ==> json_view(res->0->Ok_0) == JsonView::Null,
    {
        match u64_member(frame, "id") {
            Some(given) => if given != id {
                return None;
            },
            None => {
                return None;
            },
        }
        match get(frame, "error") {
            Some(error) => Some(Err(read_error(error))),
            None => Some(
                Ok(
                    match get(frame, "result") {
                        Some(result) => result.clone(),
                        None => null(),
                    },
                ),
            ),
        }
    }

    /// The outcome of a request that could not be sent.
    pub fn send_failed(reason: &str) -> (res: RpcError)
        ensures
            res.code == code::INTERNAL_ERROR,
            res.code == -32603,
            res.message@ == "send failed: "@ + reason@,
            res.data is None,
    {
        let mut message = "send failed: ".to_owned();
        message.append(reason);
        RpcError::new(code::INTERNAL_ERROR, message.as_str())
    }

    /// The text of a JSON-RPC notification (no id, no reply expected).
    pub fn notify(&self, method: &str, params: serde_json::Value) -> (res: String)
        ensures
            res@ == json_text(notification_frame(method@, json_view(params))),
            fits(json_view(params)) ==> reads_as(
                res@,
                notification_frame(method@, json_view(params)),
            ),
    {
        proof {
            lemma_frames_are_plain(0, method@, json_view(params), None, None);
        }
        render(&notification_value(method, params))
    }

    /// The text of a JSON-RPC response.
    pub fn respond(
        &self,
        id: u64,
        result: Option<serde_json::Value>,
        error: Option<RpcError>,
    ) -> (res: String)
        ensures
            res@ == json_text(
                response_frame(id, opt_json_view(result), opt_error_view(error)),
            ),
            (result is Some ==> fits(json_view(result->0))) && (error is Some ==> fits(
                error_view(error->0),
            )) ==> reads_as(
                res@,
                response_frame(id, opt_json_view(result), opt_error_view(error)),
            ),
    {
        proof {
            lemma_frames_are_plain(
                id,
                Seq::empty(),
                JsonView::Null,
                opt_json_view(result),
                opt_error_view(error),
            );
        }
        render(&response_value(id, result, error))
    }
}

// ---------------------------------------------------------------------------
// Endpoint
// ---------------------------------------------------------------------------

/// What follows the scheme of a URL: its authority and its path. A scheme is
/// what stands before the first `/`, where that begins a `://`.
pub open spec fn behind_scheme(url: Seq<char>) -> Seq<char> {
    let i = first_index_of(url, '/');
    if 0 < i && i + 1 < url.len() && url[i - 1] == ':' && url[i + 1] == '/' {
        url.skip(i + 2)
    } else {
        url
    }
}

/// The WebSocket endpoint of a relay base URL: `/ws` is looked for in the path
/// alone, as a host may be named `ws` too.
pub open spec fn ws_url(base: Seq<char>) -> Seq<char> {
    let trimmed = without_trailing(base, '/');
    if has_suffix(behind_scheme(trimmed), "/ws"@) {
        trimmed
    } else {
        trimmed + "/ws"@
    }
}

fn after_scheme(url: &str) -> (res: String)
    ensures
        res@ == behind_scheme(url@),
{
    let text = chars_of(url);
    let total: usize = text.len();
    let mut i: usize = 0;
    while i < total && text[i] != '/'
        invariant
            total == text@.len(),
            text@ == url@,
            i <= total,
            forall|j: int| 0 <= j < i ==> text@[j] != '/',
        decreases total - i,
    {
        i += 1;
    }
    proof {
        lemma_first_index_is(url@, '/', i as int);
    }
    if 0 < i && i < total && total - i > 1 && text[i - 1] == ':' && text[i + 1] == '/' {
        slice_text(&text, i + 2, total)
    } else {
        url.to_owned()
    }
}

/// Normalize a relay base URL to the WebSocket endpoint.
///
/// Accepts `ws://host:port`, `wss://host`, or a full `.../ws` path; appends
/// `/ws` when the path is missing or empty.
pub fn relay_ws_url(base: &str) -> (res: String)
    ensures
        res@ == ws_url(base@),
{
    let mut trimmed = trim_end_char(base, '/');
    if !ends_with(after_scheme(trimmed.as_str()).as_str(), "/ws") {
        trimmed.append("/ws");
    }
    trimmed
}

/// The last character that is left is not one that was to be taken off.
proof fn lemma_trailing_is_gone(s: Seq<char>, c: char)
    ensures
        without_trailing(s, c).len() > 0 ==> without_trailing(s, c).last() != c,
    decreases s.len(),
{
    if s.len() > 0 && s.last() == c {
        lemma_trailing_is_gone(s.drop_last(), c);
    }
}

/// The endpoint of a URL ends with `/ws` behind the scheme, is its own
/// endpoint, and does not depend on slashes at the end.
pub proof fn lemma_endpoint_is_its_own(base: Seq<char>)
    ensures
        has_suffix(behind_scheme(ws_url(base)), "/ws"@),
        ws_url(ws_url(base)) == ws_url(base),
        ws_url(base.push('/')) == ws_url(base),
{
    reveal_strlit("/ws");
    let end = "/ws"@;
    assert(end.len() == 3 && end[0] == '/' && end[1] == 'w' && end[2] == 's');
    let t = without_trailing(base, '/');
    let url = ws_url(base);
    lemma_trailing_is_gone(base, '/');
    lemma_first_index_of(t, '/');
    let i = first_index_of(t, '/');
    if !has_suffix(behind_scheme(t), end) {
        assert(url == t + end);
        lemma_first_index_is(url, '/', i);
        if behind_scheme(t) == t {
            assert(behind_scheme(url) =~= url) by {
                if i < t.len() {
                    assert(url[i + 1] == if i + 1 < t.len() {
                        t[i + 1]
                    } else {
                        '/'
                    });
                }
            }
            assert(behind_scheme(url) =~= t + end);
        } else {
            assert(behind_scheme(url) =~= behind_scheme(t) + end);
        }
        let b = behind_scheme(url);
        assert(b.subrange(b.len() - 3, b.len() as int) =~= end);
    }
    let b = behind_scheme(url);
    assert(b.subrange(b.len() - 3, b.len() as int) == end);
    assert(b.last() == b.subrange(b.len() - 3, b.len() as int)[2]);
    assert(url.last() == b.last());
    assert(url.last() == 's');
    assert(without_trailing(url, '/') == url);
    assert(base.push('/').drop_last() =~= base);
}

/// An error may come as an array of its parts: the code, the message and the
/// data, in this order.
pub proof fn lemma_error_parts_stand_in_order(
    code: i64,
    message: Seq<char>,
    data: JsonView,
    read: RpcError,
)
    requires
        is_error_in(read, JsonView::Array(seq![signed(code), JsonView::Text(message), data])),
    ensures
        read.code == code,
        read.message@ == message,
        data == JsonView::Null ==> read.data is None,
        data != JsonView::Null ==> opt_json_view(read.data) == Some(data),
{
    let items = seq![signed(code), JsonView::Text(message), data];
    assert(items[0] == signed(code) && items[1] == JsonView::Text(message) && items[2] == data);
}

/// The endpoint of a relay is `/ws` on its host: it is added to a URL that names
/// the host alone, whatever that is called, and to one with another path; a URL
/// that names it is left as it is.
pub proof fn lemma_endpoint_of_a_host(scheme: Seq<char>, host: Seq<char>, path: Seq<char>)
    requires
        !scheme.contains('/'),
        !host.contains('/'),
        host.len() > 0,
        path.len() > 0,
        path.last() != '/',
        !has_suffix(path, "/ws"@),
        path != "ws"@,
    ensures
        ({
            let url = scheme + seq![':', '/', '/'] + host;
            let end = seq!['/', 'w', 's'];
            &&& ws_url(url) == url + end
            &&& ws_url(url + end) == url + end
            &&& ws_url(url + seq!['/'] + path) == url + seq!['/'] + path + end
        }),
{
    reveal_strlit("/ws");
    reveal_strlit("ws");
    let end = seq!['/', 'w', 's'];
    assert("/ws"@ =~= end);
    let url = scheme + seq![':', '/', '/'] + host;
    let n = scheme.len() as int + 1;
    assert forall|j: int| 0 <= j < n implies url[j] != '/' by {
        if j < scheme.len() {
            assert(url[j] == scheme[j]);
            assert(scheme.contains(scheme[j]));
        }
    }
    lemma_first_index_is(url, '/', n);
    assert(behind_scheme(url) =~= host);
    assert(url.last() == host.last());
    assert(host.contains(host[host.len() - 1]));
    assert(without_trailing(url, '/') == url);
    if has_suffix(host, "/ws"@) {
        assert(host.subrange(host.len() - 3, host.len() as int)[0] == '/');
        assert(host.contains(host[host.len() - 3]));
    }
    let full = url + end;
    assert(full[n] == '/' && full[n - 1] == ':' && full[n + 1] == '/');
    lemma_first_index_is(full, '/', n);
    assert(behind_scheme(full) =~= host + end);
    assert((host + end).subrange(host.len() as int, host.len() as int + 3) =~= end);
    assert(full.last() == 's');
    assert(without_trailing(full, '/') == full);
    let other = url + seq!['/'] + path;
    assert(other[n] == '/' && other[n - 1] == ':' && other[n + 1] == '/');
    lemma_first_index_is(other, '/', n);
    let b = host + seq!['/'] + path;
    assert(behind_scheme(other) =~= b);
    assert(other.last() == path.last());
    assert(without_trailing(other, '/') == other);
    if has_suffix(b, "/ws"@) {
        let tail = b.subrange(b.len() - 3, b.len() as int);
        if path.len() >= 3 {
            assert(path.subrange(path.len() - 3, path.len() as int) =~= tail);
        } else if path.len() == 2 {
            assert(path =~= tail.skip(1));
            assert("ws"@ =~= tail.skip(1));
        } else {
            assert(tail[1] == '/');
        }
    }
    assert(other + "/ws"@ =~= url + seq!['/'] + path + end);
}

} // verus!
