//! Bridge <-> agent RPC client over the relay: which requests are pending, and
//! what a frame means for them.

use vstd::prelude::*;

use crate::agent::commands::{completion, completion_message};
use crate::ids::{contains_id, lemma_others, lemma_others_stay_distinct, others, remove_id};
use crate::json::{
    as_bool, as_i64, as_signed, as_text, as_truth, as_unsigned, get, json_text, json_view, member,
    member_of, null, render, text_member, u64_member, unsigned, JsonView,
};
use crate::protocol::{code, notify, RpcError};
use crate::rpc::{request_frame, request_value, response_frame};
use crate::text::{opt_text, signed_decimal};

verus! {

/// Client to the paired agent.
#[derive(Debug)]
pub struct AgentClient {
    next_id: u64,
    /// Requests that await their response, oldest first.
    pending: Vec<u64>,
    /// The relay can be reached.
    connected: bool,
    /// Agent id from the relay.
    agent_id: Option<String>,
}

/// The client as a mathematical value.
#[verifier::ext_equal]
pub struct ClientView {
    pub next_id: u64,
    pub pending: Seq<u64>,
    pub connected: bool,
    pub agent_id: Option<Seq<char>>,
}

impl View for AgentClient {
    type V = ClientView;

    closed spec fn view(&self) -> ClientView {
        ClientView {
            next_id: self.next_id,
            pending: self.pending@,
            connected: self.connected,
            agent_id: opt_text(self.agent_id),
        }
    }
}

impl ClientView {
    /// What always holds: no request is pending twice, and every id was given
    /// out before.
    pub open spec fn inv(self) -> bool {
        &&& self.pending.no_duplicates()
        &&& forall|i: int| 0 <= i < self.pending.len() ==> #[trigger] self.pending[i] < self.next_id
        &&& !self.connected ==> self.pending.len() == 0
    }
}

/// What a response says.
#[derive(Debug)]
pub enum Reply {
    Result(serde_json::Value),
    /// The error as it was sent.
    Error(serde_json::Value),
}

/// What a response says, as a mathematical value.
pub enum ReplyView {
    Result(JsonView),
    Error(JsonView),
}

impl View for Reply {
    type V = ReplyView;

    open spec fn view(&self) -> ReplyView {
        match self {
            Reply::Result(v) => ReplyView::Result(json_view(*v)),
            Reply::Error(v) => ReplyView::Error(json_view(*v)),
        }
    }
}

/// What a frame means.
#[derive(Debug)]
pub enum Event {
    /// The request `id` is answered.
    Answered { id: u64, reply: Reply },
    AgentConnected,
    AgentDisconnected,
    /// How a command ended, for the log.
    CommandFinished(String),
    /// Nothing that matters here.
    Other,
}

/// What a frame means, as a mathematical value.
pub enum EventView {
    Answered { id: u64, reply: ReplyView },
    AgentConnected,
    AgentDisconnected,
    CommandFinished(Seq<char>),
    Other,
}

impl View for Event {
    type V = EventView;

    open spec fn view(&self) -> EventView {
        match self {
            Event::Answered { id, reply } => EventView::Answered { id: *id, reply: reply@ },
            Event::AgentConnected => EventView::AgentConnected,
            Event::AgentDisconnected => EventView::AgentDisconnected,
            Event::CommandFinished(text) => EventView::CommandFinished(text@),
            Event::Other => EventView::Other,
        }
    }
}

/// What the response `v` says: its error where it has one, else its result,
/// which is null where it has none.
pub open spec fn reply_in(v: JsonView) -> ReplyView {
    match member(v, "error"@) {
        Some(e) => ReplyView::Error(e),
        None => ReplyView::Result(
            match member(v, "result"@) {
                Some(r) => r,
                None => JsonView::Null,
            },
        ),
    }
}

/// How the `command_finished` notification `v` reads in the log.
pub open spec fn finished_in(v: JsonView) -> EventView {
    if member(v, "params"@) is Some {
        EventView::CommandFinished(
            completion(
                as_signed(member_of(v, "params"@, "exit_code"@)),
                as_truth(member_of(v, "params"@, "timed_out"@)) == Some(true),
            ),
        )
    } else {
        EventView::Other
    }
}

impl ClientView {
    /// What the frame `v` means: an answer to a request that is pending, news
    /// of the agent, or the end of a command.
    pub open spec fn meaning(self, v: JsonView) -> EventView {
        let name = as_text(member(v, "method"@));
        match as_unsigned(member(v, "id"@)) {
            Some(id) => if self.pending.contains(id) {
                EventView::Answered { id, reply: reply_in(v) }
            } else {
                EventView::Other
            },
            None => if name == Some(notify::AGENT_CONNECTED@) && as_text(
                member_of(v, "params"@, "agent_id"@),
            ) is Some {
                EventView::AgentConnected
            } else if name == Some(notify::AGENT_DISCONNECTED@) {
                EventView::AgentDisconnected
            } else if name == Some(notify::COMMAND_FINISHED@) {
                finished_in(v)
            } else {
                EventView::Other
            },
        }
    }

    /// The client once the frame `v` has been read.
    pub open spec fn after(self, v: JsonView) -> ClientView {
        match self.meaning(v) {
            EventView::Answered { id, .. } => ClientView {
                pending: others(self.pending, id),
                ..self
            },
            EventView::AgentConnected => ClientView {
                agent_id: as_text(member_of(v, "params"@, "agent_id"@)),
                ..self
            },
            EventView::AgentDisconnected => ClientView { agent_id: None, ..self },
            _ => self,
        }
    }
}

/// The agent id in the relay's answer to the handshake.
fn agent_of(ack: &serde_json::Value) -> (res: Option<String>)
    ensures
        opt_text(res) == as_text(member_of(json_view(*ack), "params"@, "agent_id"@)),
{
    match get(ack, "params") {
        Some(params) => text_member(params, "agent_id"),
        None => None,
    }
}

/// `e` reports that the connection ended before the answer came.
pub open spec fn is_lost_error(e: RpcError) -> bool {
    e.code == code::AGENT_OFFLINE && e.message@ == "connection to agent lost"@ && e.data is None
}

/// The error for a request whose answer cannot come any more.
pub fn lost_error() -> (res: RpcError)
    ensures
        is_lost_error(res),
        res.code == -32000,
        res.message@ == "connection to agent lost"@,
        res.data is None,
{
    RpcError::new(code::AGENT_OFFLINE, "connection to agent lost")
}

impl AgentClient {
    /// The client once the relay has answered the handshake with `ack`.
    pub fn connect(ack: &serde_json::Value) -> (res: Self)
        ensures
            res@.inv(),
            res@ == (ClientView {
                next_id: 1,
                pending: Seq::empty(),
                connected: true,
                agent_id: as_text(member_of(json_view(*ack), "params"@, "agent_id"@)),
            }),
    {
        AgentClient { next_id: 1, pending: Vec::new(), connected: true, agent_id: agent_of(ack) }
    }

    /// The relay can be reached again, and has answered with `ack`.
    pub fn reconnect(&mut self, ack: &serde_json::Value)
        requires
            old(self)@.inv(),
        ensures
            final(self)@.inv(),
            final(self)@ == (ClientView {
                connected: true,
                agent_id: as_text(member_of(json_view(*ack), "params"@, "agent_id"@)),
                ..old(self)@
            }),
    {
        self.connected = true;
        self.agent_id = agent_of(ack);
    }

    /// The id of the agent, while one is connected.
    pub fn agent_id(&self) -> (res: Option<String>)
        ensures
            opt_text(res) == self@.agent_id,
    {
        crate::text::copied(&self.agent_id)
    }

    /// Whether another request can be numbered.
    pub fn has_room(&self) -> (res: bool)
        ensures
            res == (self@.next_id < u64::MAX),
    {
        self.next_id < u64::MAX
    }

    /// Begin a request: its id and the text to send. While the relay cannot be
    /// reached it fails at once.
    pub fn call(&mut self, method: &str, params: serde_json::Value) -> (res: Result<
        (u64, String),
        RpcError,
    >)
        requires
            old(self)@.inv(),
            old(self)@.next_id < u64::MAX,
        ensures
            final(self)@.inv(),
            match res {
                Ok((id, text)) => {
                    &&& old(self)@.connected
                    &&& id == old(self)@.next_id
                    &&& text@ == json_text(request_frame(id, method@, json_view(params)))
                    &&& text@ == json_text(
                        JsonView::Object(
                            map![
                                "jsonrpc"@ => JsonView::Text("2.0"@),
                                "id"@ => unsigned(id),
                                "method"@ => JsonView::Text(method@),
                                "params"@ => json_view(params),
                            ],
                        ),
                    )
                    &&& final(self)@ == (ClientView {
                        next_id: (id + 1) as u64,
                        pending: old(self)@.pending.push(id),
                        ..old(self)@
                    })
                },
                Err(e) => {
                    &&& !old(self)@.connected
                    &&& e.code == code::AGENT_OFFLINE
                    &&& e.code == -32000
                    &&& e.message@ == "relay connection offline (reconnecting)"@
                    &&& e.data is None
                    &&& final(self)@ == old(self)@
                },
            },
    {
        if !self.connected {
            return Err(
                RpcError::new(code::AGENT_OFFLINE, "relay connection offline (reconnecting)"),
            );
        }
        let id = self.next_id;
        self.next_id = id + 1;
        self.pending.push(id);
        let frame = request_value(id, method, params);
        Ok((id, render(&frame)))
    }

    /// The request `id` is not awaited any more.
    fn forget(&mut self, id: u64)
        requires
            old(self)@.inv(),
        ensures
            final(self)@.inv(),
            final(self)@ == (ClientView { pending: others(old(self)@.pending, id), ..old(self)@ }),
    {
        let ghost before = self@;
        remove_id(&mut self.pending, id);
        proof {
            lemma_forgetting_keeps_order(before, id);
        }
    }

    /// The text of the request `id` could not be sent.
    pub fn send_failed(&mut self, id: u64, error: &str) -> (res: RpcError)
        requires
            old(self)@.inv(),
        ensures
            final(self)@.inv(),
            final(self)@ == (ClientView { pending: others(old(self)@.pending, id), ..old(self)@ }),
            res.code == code::INTERNAL_ERROR,
            res.code == -32603,
            !final(self)@.pending.contains(id),
            res.message@ == "send failed: "@ + error@,
            res.data is None,
    {
        self.forget(id);
        proof {
            lemma_others(old(self)@.pending, id);
        }
        let mut message = "send failed: ".to_owned();
        message.append(error);
        RpcError::new(code::INTERNAL_ERROR, message.as_str())
    }

    /// The request `id` was not answered in time.
    pub fn timed_out(&mut self, id: u64) -> (res: RpcError)
        requires
            old(self)@.inv(),
        ensures
            final(self)@.inv(),
            final(self)@ == (ClientView { pending: others(old(self)@.pending, id), ..old(self)@ }),
            res.code == code::CANCELLED,
            res.code == -32001,
            !final(self)@.pending.contains(id),
            res.message@ == "request timed out"@,
            res.data is None,
    {
        self.forget(id);
        proof {
            lemma_others(old(self)@.pending, id);
        }
        RpcError::new(code::CANCELLED, "request timed out")
    }

    /// A frame has come: route a response to its request, and take note of
    /// news.
    pub fn receive(&mut self, frame: &serde_json::Value) -> (res: Event)
        requires
            old(self)@.inv(),
        ensures
            final(self)@.inv(),
            res@ == old(self)@.meaning(json_view(*frame)),
            final(self)@ == old(self)@.after(json_view(*frame)),
    {
        if let Some(id) = u64_member(frame, "id") {
            if !contains_id(&self.pending, id) {
                return Event::Other;
            }
            self.forget(id);
            let reply = match get(frame, "error") {
                Some(error) => Reply::Error(error.clone()),
                None => Reply::Result(
                    match get(frame, "result") {
                        Some(result) => result.clone(),
                        None => null(),
                    },
                ),
            };
            return Event::Answered { id, reply };
        }
        let name = match text_member(frame, "method") {
            Some(name) => name,
            None => {
                return Event::Other;
            },
        };
        if *name.as_str() == *notify::AGENT_CONNECTED {
            match agent_of(frame) {
                Some(id) => {
                    self.agent_id = Some(id);
                    Event::AgentConnected
                },
                None => {
                    proof {
                        lemma_news_differ();
                    }
                    Event::Other
                },
            }
        } else if *name.as_str() == *notify::AGENT_DISCONNECTED {
            self.agent_id = None;
            Event::AgentDisconnected
        } else if *name.as_str() == *notify::COMMAND_FINISHED {
            match get(frame, "params") {
                Some(params) => {
                    let exit_code = match get(params, "exit_code") {
                        Some(code) => as_i64(code),
                        None => None,
                    };
                    let timed_out = match get(params, "timed_out") {
                        Some(t) => match as_bool(t) {
                            Some(t) => t,
                            None => false,
                        },
                        None => false,
                    };
                    Event::CommandFinished(completion_message(exit_code, timed_out))
                },
                None => Event::Other,
            }
        } else {
            Event::Other
        }
    }

    /// The connection has ended: every pending request fails with `lost_error`.
    pub fn closed(&mut self) -> (res: Vec<u64>)
        requires
            old(self)@.inv(),
        ensures
            final(self)@.inv(),
            res@ == old(self)@.pending,
            final(self)@ == (ClientView {
                pending: Seq::empty(),
                connected: false,
                ..old(self)@
            }),
    {
        let mut out: Vec<u64> = Vec::new();
        let mut i: usize = 0;
        while i < self.pending.len()
            invariant
                self@ == old(self)@,
                i <= self.pending@.len(),
                out@ == self.pending@.take(i as int),
            decreases self.pending@.len() - i,
        {
            assert(self.pending@.take(i + 1) =~= self.pending@.take(i as int).push(
                self.pending@[i as int],
            ));
            out.push(self.pending[i]);
            i += 1;
        }
        assert(out@ =~= self.pending@);
        self.pending = Vec::new();
        self.connected = false;
        out
    }
}

/// The names of the relay's and the agent's news differ.
proof fn lemma_news_differ()
    ensures
        notify::AGENT_CONNECTED@ != notify::AGENT_DISCONNECTED@,
        notify::AGENT_CONNECTED@ != notify::COMMAND_FINISHED@,
{
    reveal_strlit("agent_connected");
    reveal_strlit("agent_disconnected");
    reveal_strlit("command_finished");
    assert("agent_connected"@.len() == 15);
    assert("agent_disconnected"@.len() == 18);
    assert("command_finished"@.len() == 16);
}

/// Forgetting a request keeps the others in order.
proof fn lemma_forgetting_keeps_order(client: ClientView, id: u64)
    requires
        client.inv(),
    ensures
        (ClientView { pending: others(client.pending, id), ..client }).inv(),
{
    lemma_others(client.pending, id);
    lemma_others_stay_distinct(client.pending, id);
    let rest = others(client.pending, id);
    assert forall|i: int| 0 <= i < rest.len() implies #[trigger] rest[i] < client.next_id by {
        assert(rest.contains(rest[i]));
        assert(client.pending.contains(rest[i]));
        let k = choose|k: int| 0 <= k < client.pending.len() && client.pending[k] == rest[i];
        assert(client.pending[k] < client.next_id);
    }
    if rest.len() > 0 {
        assert(rest.contains(rest[0]));
        assert(client.pending.contains(rest[0]));
    }
}

// ---------------------------------------------------------------------------
// Laws of the client
// ---------------------------------------------------------------------------

/// A new request has an id that no pending request has.
pub proof fn lemma_new_ids_are_free(client: ClientView)
    requires
        client.inv(),
    ensures
        !client.pending.contains(client.next_id),
{
    if client.pending.contains(client.next_id) {
        let k = choose|k: int|
            0 <= k < client.pending.len() && client.pending[k] == client.next_id;
        assert(client.pending[k] < client.next_id);
    }
}

/// A response answers the request whose id it echoes, and no other: that one
/// is then no longer pending, so a second response to it means nothing.
pub proof fn lemma_response_answers_its_request_once(
    client: ClientView,
    id: u64,
    first: JsonView,
    second: JsonView,
)
    requires
        client.inv(),
        client.pending.contains(id),
        as_unsigned(member(first, "id"@)) == Some(id),
        as_unsigned(member(second, "id"@)) == Some(id),
    ensures
        client.meaning(first) == (EventView::Answered { id, reply: reply_in(first) }),
        !client.after(first).pending.contains(id),
        forall|other: u64|
            other != id ==> (#[trigger] client.after(first).pending.contains(other)
                <==> client.pending.contains(other)),
        client.after(first).meaning(second) == EventView::Other,
        client.after(first).after(second) == client.after(first),
{
    lemma_others(client.pending, id);
}

/// The request is answered with what the agent said: a response that was made of
/// a result gives that result, and one that was made of an error gives that
/// error. One that holds neither gives null.
pub proof fn lemma_request_gets_what_was_answered(
    client: ClientView,
    id: u64,
    result: JsonView,
    error: JsonView,
)
    requires
        client.pending.contains(id),
    ensures
        client.meaning(response_frame(id, Some(result), None)) == (EventView::Answered {
            id,
            reply: ReplyView::Result(result),
        }),
        client.meaning(response_frame(id, None, Some(error))) == (EventView::Answered {
            id,
            reply: ReplyView::Error(error),
        }),
        client.meaning(response_frame(id, None, None)) == (EventView::Answered {
            id,
            reply: ReplyView::Result(JsonView::Null),
        }),
{
    reveal_strlit("jsonrpc");
    reveal_strlit("id");
    reveal_strlit("result");
    reveal_strlit("error");
    assert("jsonrpc"@.len() == 7 && "id"@.len() == 2);
    assert("result"@.len() == 6 && "error"@.len() == 5);
}

/// News are taken note of: an agent that is announced is the one that is
/// connected from then on, and once it is said to be gone none is. The end of a
/// command is reported in words. None of this changes what is pending.
pub proof fn lemma_news_are_taken_note_of(client: ClientView, frame: JsonView)
    requires
        as_unsigned(member(frame, "id"@)) is None,
    ensures
        ({
            let name = as_text(member(frame, "method"@));
            let agent = as_text(member_of(frame, "params"@, "agent_id"@));
            let exit_code = as_signed(member_of(frame, "params"@, "exit_code"@));
            let timed_out = as_truth(member_of(frame, "params"@, "timed_out"@));
            &&& client.after(frame).pending == client.pending
            &&& client.after(frame).connected == client.connected
            &&& client.after(frame).next_id == client.next_id
            &&& name == Some("agent_connected"@) && agent is Some ==> {
                &&& client.meaning(frame) == EventView::AgentConnected
                &&& client.after(frame).agent_id == agent
            }
            &&& name == Some("agent_disconnected"@) ==> {
                &&& client.meaning(frame) == EventView::AgentDisconnected
                &&& client.after(frame).agent_id is None
            }
            &&& name != Some("agent_disconnected"@) && !(name == Some("agent_connected"@) && agent
                is Some) ==> client.after(frame) == client
            &&& name == Some("command_finished"@) && member(frame, "params"@) is Some ==> {
                &&& timed_out == Some(true) ==> client.meaning(frame)
                    == EventView::CommandFinished("command finished: timed out"@)
                &&& timed_out != Some(true) && exit_code is None ==> client.meaning(frame)
                    == EventView::CommandFinished("command finished: killed by signal"@)
                &&& timed_out != Some(true) && exit_code is Some ==> client.meaning(frame)
                    == EventView::CommandFinished(
                    "command finished: exit code "@ + signed_decimal(exit_code->0 as int),
                )
            }
        }),
{
    lemma_news_differ();
    reveal_strlit("agent_disconnected");
    reveal_strlit("command_finished");
    assert("agent_disconnected"@.len() == 18 && "command_finished"@.len() == 16);
}

/// A response to no pending request changes nothing.
pub proof fn lemma_stray_response_is_ignored(client: ClientView, id: u64, frame: JsonView)
    requires
        !client.pending.contains(id),
        as_unsigned(member(frame, "id"@)) == Some(id),
    ensures
        client.meaning(frame) == EventView::Other,
        client.after(frame) == client,
{
}

/// A notification answers no request.
pub proof fn lemma_notification_answers_nothing(client: ClientView, frame: JsonView)
    requires
        member(frame, "id"@) is None,
    ensures
        client.after(frame).pending == client.pending,
        !(client.meaning(frame) is Answered),
{
}

impl ClientView {
    /// The client once the frames have been read, one after the other.
    pub open spec fn after_all(self, frames: Seq<JsonView>) -> ClientView
        decreases frames.len(),
    {
        if frames.len() == 0 {
            self
        } else {
            self.after_all(frames.drop_last()).after(frames.last())
        }
    }

    /// The replies that the request `id` gets from the frames.
    pub open spec fn replies(self, frames: Seq<JsonView>, id: u64) -> Seq<ReplyView>
        decreases frames.len(),
    {
        if frames.len() == 0 {
            Seq::empty()
        } else {
            let before = self.replies(frames.drop_last(), id);
            match self.after_all(frames.drop_last()).meaning(frames.last()) {
                EventView::Answered { id: answered, reply } => if answered == id {
                    before.push(reply)
                } else {
                    before
                },
                _ => before,
            }
        }
    }
}

/// The first of the frames that echoes the id.
pub open spec fn first_for(frames: Seq<JsonView>, id: u64) -> Option<JsonView>
    decreases frames.len(),
{
    if frames.len() == 0 {
        None
    } else {
        match first_for(frames.drop_last(), id) {
            Some(frame) => Some(frame),
            None => if as_unsigned(member(frames.last(), "id"@)) == Some(id) {
                Some(frames.last())
            } else {
                None
            },
        }
    }
}

/// A pending request has exactly one outcome, whatever frames come before the
/// connection ends: what the first frame that echoes its id says, or else it is
/// among those that fail at the end, and stands there once.
pub proof fn lemma_request_has_one_outcome(client: ClientView, frames: Seq<JsonView>, id: u64)
    requires
        client.inv(),
        client.pending.contains(id),
    ensures
        ({
            let end = client.after_all(frames);
            &&& end.inv()
            &&& client.replies(frames, id) == match first_for(frames, id) {
                Some(frame) => seq![reply_in(frame)],
                None => Seq::empty(),
            }
            &&& end.pending.contains(id) <==> first_for(frames, id) is None
            &&& end.pending.no_duplicates()
        }),
    decreases frames.len(),
{
    if frames.len() > 0 {
        let front = frames.drop_last();
        let frame = frames.last();
        lemma_request_has_one_outcome(client, front, id);
        let now = client.after_all(front);
        if let EventView::Answered { id: answered, .. } = now.meaning(frame) {
            lemma_forgetting_keeps_order(now, answered);
            lemma_others(now.pending, answered);
        }
        if first_for(front, id) is None {
            if as_unsigned(member(frame, "id"@)) == Some(id) {
                assert(now.meaning(frame) == (EventView::Answered { id, reply: reply_in(frame) }));
                assert(Seq::<ReplyView>::empty().push(reply_in(frame)) =~= seq![reply_in(frame)]);
            }
        }
    }
}

} // verus!
