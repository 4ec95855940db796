//! What agent and bridge share of their connection to the relay: the handshake
//! and the messages of the WebSocket.

use vstd::prelude::*;

use crate::json::{
    as_text, json_parsed, json_text, json_view, member, parse, reads_as, render, text_member,
    JsonView,
};
use crate::protocol::encode::{hello_value, hello_view};
use crate::protocol::{notify, Hello, PeerKind};

verus! {

// ---------------------------------------------------------------------------
// Handshake
// ---------------------------------------------------------------------------

/// The first message of an agent or a bridge.
pub fn hello(kind: PeerKind, id: &str, name: &str, token: &str) -> (res: Hello)
    ensures
        res.kind == kind,
        res.id@ == id@,
        res.name@ == name@,
        res.token is Some,
        res.token->0@ == token@,
{
    Hello { kind, id: id.to_owned(), name: name.to_owned(), token: Some(token.to_owned()) }
}

/// The text of a first message.
pub fn hello_text(h: &Hello) -> (res: String)
    ensures
        res@ == json_text(hello_view(*h)),
        h.token is Some ==> res@ == json_text(
            JsonView::Object(
                map![
                    "kind"@ => JsonView::Text(
                        if h.kind == PeerKind::Agent { "agent"@ } else { "bridge"@ },
                    ),
                    "id"@ => JsonView::Text(h.id@),
                    "name"@ => JsonView::Text(h.name@),
                    "token"@ => JsonView::Text(h.token->0@),
                ],
            ),
        ),
{
    render(&hello_value(h))
}

/// The frame is the relay's answer to a first message.
pub open spec fn is_ack(v: JsonView) -> bool {
    as_text(member(v, "method"@)) == Some(notify::HELLO_ACK@)
}

/// A text has come before the handshake was complete: the relay's answer, where
/// it is that. A text that is not JSON ends the connection.
pub fn read_ack(text: &str) -> (res: Result<Option<serde_json::Value>, String>)
    ensures
        match res {
            Ok(Some(v)) => reads_as(text@, json_view(v)) && is_ack(json_view(v)),
            Ok(None) => json_parsed(text@) is Ok && !is_ack(json_parsed(text@)->Ok_0),
            Err(e) => json_parsed(text@) is Err && json_parsed(text@)->Err_0 == e@,
        },
        res is Err <==> json_parsed(text@) is Err,
        res is Ok ==> (res->Ok_0 is Some <==> as_text(
            member(json_parsed(text@)->Ok_0, "method"@),
        ) == Some("hello_ack"@)),
{
    match parse(text) {
        Ok(v) => {
            let acked = match text_member(&v, "method") {
                Some(name) => *name.as_str() == *notify::HELLO_ACK,
                None => false,
            };
            if acked {
                Ok(Some(v))
            } else {
                Ok(None)
            }
        },
        Err(e) => Err(e),
    }
}

// ---------------------------------------------------------------------------
// Messages
// ---------------------------------------------------------------------------

/// A message of a WebSocket.
#[derive(Debug)]
pub enum WsMessage {
    Text(String),
    Ping(Vec<u8>),
    Close,
    /// Binary data or a pong.
    Other,
    /// The socket failed.
    Failed,
}

/// What is done with a message.
#[derive(Debug)]
pub enum WsAction {
    /// Work on the frame, without holding up the messages that follow.
    Handle(serde_json::Value),
    /// Answer a ping with the same payload.
    Pong(Vec<u8>),
    /// Go on with the next message.
    Skip,
    /// The connection is over: kill its commands.
    Stop,
}

/// `a` is what is done with the message `m`.
pub open spec fn is_action_for(a: WsAction, m: WsMessage) -> bool {
    match m {
        WsMessage::Text(text) => match json_parsed(text@) {
            Ok(v) => a is Handle && json_view(a->Handle_0) == v,
            Err(_) => a is Skip,
        },
        WsMessage::Ping(payload) => a is Pong && a->Pong_0 == payload,
        WsMessage::Close => a is Stop,
        WsMessage::Other => a is Skip,
        WsMessage::Failed => a is Stop,
    }
}

/// What is done with a message.
pub fn on_message(m: WsMessage) -> (res: WsAction)
    ensures
        is_action_for(res, m),
        res is Stop <==> m is Close || m is Failed,
        res is Pong <==> m is Ping,
        res is Pong ==> res->Pong_0 == m->Ping_0,
        res is Handle <==> m is Text && json_parsed(m->Text_0@) is Ok,
        res is Handle ==> json_view(res->Handle_0) == json_parsed(m->Text_0@)->Ok_0,
{
    match m {
        WsMessage::Text(text) => match parse(text.as_str()) {
            Ok(v) => WsAction::Handle(v),
            Err(_) => WsAction::Skip,
        },
        WsMessage::Ping(payload) => WsAction::Pong(payload),
        WsMessage::Close => WsAction::Stop,
        WsMessage::Other => WsAction::Skip,
        WsMessage::Failed => WsAction::Stop,
    }
}

} // verus!
