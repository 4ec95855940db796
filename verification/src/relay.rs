//! The relay hub: pairs agents and bridges by a shared token and forwards
//! JSON-RPC frames between them without looking at the method bodies.
//!
//! The hub only decides. Whoever holds the sockets hands it what arrives and
//! sends what it returns.

use vstd::prelude::*;

use crate::json::{
    as_text, as_unsigned, has_member, json_text, json_view, member, new_object, of_array, of_text,
    put, render, text_member, u64_member, JsonView,
};
use crate::protocol::{code, method, notify, Hello, PeerKind, RpcError};
use crate::random::random_u32;
use crate::rpc::{
    error_view, notification_frame, notification_value, request_frame, response_frame,
    response_value,
};
use crate::text::{decimal, opt_text, push_decimal};

verus! {

// ---------------------------------------------------------------------------
// Peers
// ---------------------------------------------------------------------------

/// A connected peer.
#[derive(Debug)]
pub struct RelayPeer {
    /// Number of the connection; no two connections share one.
    pub handle: u64,
    pub kind: PeerKind,
    pub id: String,
    pub name: String,
    /// Pairing key shared by one bridge and one agent.
    pub token: String,
    /// Session id assigned by the relay.
    pub session: String,
}

/// A connected peer, as a mathematical value.
pub struct PeerView {
    pub handle: u64,
    pub kind: PeerKind,
    pub id: Seq<char>,
    pub name: Seq<char>,
    pub token: Seq<char>,
    pub session: Seq<char>,
}

impl View for RelayPeer {
    type V = PeerView;

    open spec fn view(&self) -> PeerView {
        PeerView {
            handle: self.handle,
            kind: self.kind,
            id: self.id@,
            name: self.name@,
            token: self.token@,
            session: self.session@,
        }
    }
}

impl RelayPeer {
    /// Another record of the same connection.
    fn copy(&self) -> (res: Self)
        ensures
            res@ == self@,
    {
        RelayPeer {
            handle: self.handle,
            kind: self.kind,
            id: self.id.clone(),
            name: self.name.clone(),
            token: self.token.clone(),
            session: self.session.clone(),
        }
    }
}

/// The session id of a peer: its own id and a number.
pub open spec fn session_id(id: Seq<char>, nonce: u32) -> Seq<char> {
    id + "-"@ + decimal(nonce as nat)
}

/// A text to be sent to a connection.
#[derive(Debug)]
pub struct Delivery {
    pub to: u64,
    pub text: String,
}

/// A text to be sent, as a mathematical value.
pub struct DeliveryView {
    pub to: u64,
    pub text: Seq<char>,
}

impl View for Delivery {
    type V = DeliveryView;

    open spec fn view(&self) -> DeliveryView {
        DeliveryView { to: self.to, text: self.text@ }
    }
}

/// Deliveries by connection and text.
pub open spec fn deliveries(v: Seq<Delivery>) -> Seq<DeliveryView> {
    v.map_values(|d: Delivery| d@)
}

/// What the hub does with a frame.
#[derive(Debug)]
pub struct Reaction {
    pub send: Vec<Delivery>,
    /// Set where a request was passed on: if that fails, the request with this
    /// id is to be answered with `forward_failed`.
    pub answer_failure: Option<u64>,
}

// ---------------------------------------------------------------------------
// The hub
// ---------------------------------------------------------------------------

/// Everything the relay knows of its peers.
#[derive(Debug)]
pub struct AppState {
    /// Connected agents, one for each token.
    agents: Vec<RelayPeer>,
    /// Connected bridges, in the order in which they came.
    bridges: Vec<RelayPeer>,
    /// If set, every peer must present this token.
    required_token: Option<String>,
    /// The number of the next connection.
    next: u64,
}

/// The hub as a mathematical value.
#[verifier::ext_equal]
pub struct HubView {
    pub agents: Seq<PeerView>,
    pub bridges: Seq<PeerView>,
    pub required_token: Option<Seq<char>>,
    pub next: u64,
}

impl View for AppState {
    type V = HubView;

    closed spec fn view(&self) -> HubView {
        HubView {
            agents: self.agents@.map_values(|p: RelayPeer| p@),
            bridges: self.bridges@.map_values(|p: RelayPeer| p@),
            required_token: opt_text(self.required_token),
            next: self.next,
        }
    }
}

impl HubView {
    /// What always holds: the agents are agents with a token each of their
    /// own, the bridges are bridges, and every connection has its own number.
    pub open spec fn inv(self) -> bool {
        &&& forall|i: int| 0 <= i < self.agents.len() ==> (#[trigger] self.agents[i]).handle
            < self.next && self.agents[i].kind == PeerKind::Agent
        &&& forall|i: int| 0 <= i < self.bridges.len() ==> (#[trigger] self.bridges[i]).handle
            < self.next && self.bridges[i].kind == PeerKind::Bridge
        &&& forall|i: int, j: int|
            0 <= i < j < self.agents.len() ==> (#[trigger] self.agents[i]).token != (
            #[trigger] self.agents[j]).token
        &&& forall|i: int, j: int|
            0 <= i < j < self.bridges.len() ==> (#[trigger] self.bridges[i]).handle != (
            #[trigger] self.bridges[j]).handle
        &&& forall|i: int, j: int|
            0 <= i < j < self.agents.len() ==> (#[trigger] self.agents[i]).handle != (
            #[trigger] self.agents[j]).handle
        &&& forall|i: int, j: int|
            0 <= i < self.agents.len() && 0 <= j < self.bridges.len() ==> (
            #[trigger] self.agents[i]).handle != (#[trigger] self.bridges[j]).handle
    }

    /// The peer is connected.
    pub open spec fn holds(self, peer: PeerView) -> bool {
        self.agents.contains(peer) || self.bridges.contains(peer)
    }

    /// The agent that is paired by `token`.
    pub open spec fn agent(self, token: Seq<char>) -> Option<PeerView> {
        if exists|i: int| 0 <= i < self.agents.len() && (#[trigger] self.agents[i]).token == token {
            let i = choose|i: int|
                0 <= i < self.agents.len() && (#[trigger] self.agents[i]).token == token;
            Some(self.agents[i])
        } else {
            None
        }
    }

    /// Whether a peer that presents `token` is let in: the token is not empty,
    /// and it is the required one where one is required.
    pub open spec fn admits(self, token: Option<Seq<char>>) -> bool {
        match token {
            Some(t) => t.len() > 0 && (self.required_token is Some ==> self.required_token
                == Some(t)),
            None => false,
        }
    }
}

/// The agents without the one that has `token`.
pub open spec fn without_token(agents: Seq<PeerView>, token: Seq<char>) -> Seq<PeerView>
    decreases agents.len(),
{
    if agents.len() == 0 {
        agents
    } else {
        let rest = without_token(agents.drop_last(), token);
        if agents.last().token == token {
            rest
        } else {
            rest.push(agents.last())
        }
    }
}

/// The bridges without the connection `handle`.
pub open spec fn without_handle(bridges: Seq<PeerView>, handle: u64) -> Seq<PeerView>
    decreases bridges.len(),
{
    if bridges.len() == 0 {
        bridges
    } else {
        let rest = without_handle(bridges.drop_last(), handle);
        if bridges.last().handle == handle {
            rest
        } else {
            rest.push(bridges.last())
        }
    }
}

/// `text` to every bridge that is paired by `token`.
pub open spec fn to_bridges(bridges: Seq<PeerView>, token: Seq<char>, text: Seq<char>) -> Seq<
    DeliveryView,
>
    decreases bridges.len(),
{
    if bridges.len() == 0 {
        Seq::empty()
    } else {
        let rest = to_bridges(bridges.drop_last(), token, text);
        if bridges.last().token == token {
            rest.push(DeliveryView { to: bridges.last().handle, text })
        } else {
            rest
        }
    }
}

// ---------------------------------------------------------------------------
// Frames of the relay itself
// ---------------------------------------------------------------------------

/// The relay's answer to a `Hello`.
pub open spec fn ack_frame(session: Seq<char>, agent_id: Option<Seq<char>>) -> JsonView {
    let m = Map::<Seq<char>, JsonView>::empty().insert("session"@, JsonView::Text(session));
    notification_frame(
        notify::HELLO_ACK@,
        JsonView::Object(
            match agent_id {
                Some(id) => m.insert("agent_id"@, JsonView::Text(id)),
                None => m,
            },
        ),
    )
}

/// Tells bridges that their agent is there.
pub open spec fn agent_connected_frame(id: Seq<char>, name: Seq<char>) -> JsonView {
    notification_frame(
        notify::AGENT_CONNECTED@,
        JsonView::Object(
            Map::<Seq<char>, JsonView>::empty().insert("agent_id"@, JsonView::Text(id)).insert(
                "name"@,
                JsonView::Text(name),
            ),
        ),
    )
}

/// Tells bridges that their agent is gone.
pub open spec fn agent_gone_frame(id: Seq<char>) -> JsonView {
    notification_frame(
        notify::AGENT_DISCONNECTED@,
        JsonView::Object(
            Map::<Seq<char>, JsonView>::empty().insert("agent_id"@, JsonView::Text(id)),
        ),
    )
}

/// An answer that reports an error.
pub open spec fn error_frame(id: u64, error_code: i64, message: Seq<char>) -> JsonView {
    response_frame(
        id,
        None,
        Some(
            JsonView::Object(
                Map::<Seq<char>, JsonView>::empty().insert(
                    "code"@,
                    crate::json::signed(error_code),
                ).insert("message"@, JsonView::Text(message)),
            ),
        ),
    )
}

/// One connected target.
pub open spec fn target_view(p: PeerView) -> JsonView {
    JsonView::Object(
        Map::<Seq<char>, JsonView>::empty().insert("id"@, JsonView::Text(p.id)).insert(
            "name"@,
            JsonView::Text(p.name),
        ).insert("session"@, JsonView::Text(p.session)),
    )
}

/// The answer to `list_targets`: every connected agent.
pub open spec fn targets_frame(id: u64, agents: Seq<PeerView>) -> JsonView {
    response_frame(
        id,
        Some(
            JsonView::Object(
                Map::<Seq<char>, JsonView>::empty().insert(
                    "targets"@,
                    JsonView::Array(agents.map_values(|p: PeerView| target_view(p))),
                ),
            ),
        ),
        None,
    )
}

/// An answer that reports an error, as a text.
fn error_text(id: u64, error_code: i64, message: &str) -> (res: String)
    ensures
        res@ == json_text(error_frame(id, error_code, message@)),
{
    let error = RpcError::new(error_code, message);
    let frame = response_value(id, None, Some(error));
    assert(error_view(error) =~= JsonView::Object(
        Map::<Seq<char>, JsonView>::empty().insert(
            "code"@,
            crate::json::signed(error_code),
        ).insert("message"@, JsonView::Text(message@)),
    ));
    render(&frame)
}

// ---------------------------------------------------------------------------
// What a frame is
// ---------------------------------------------------------------------------

/// An id and no method: an answer.
pub open spec fn is_response(v: JsonView) -> bool {
    member(v, "id"@) is Some && member(v, "method"@) is None
}

/// A method and no id: a one-way event.
pub open spec fn is_notification(v: JsonView) -> bool {
    member(v, "method"@) is Some && member(v, "id"@) is None
}

/// The id of a request; 0 where it has none that is a `u64`.
pub open spec fn request_id(v: JsonView) -> u64 {
    match as_unsigned(member(v, "id"@)) {
        Some(id) => id,
        None => 0,
    }
}

impl HubView {
    /// What is sent when `frame` comes from `peer`: answers and events of an
    /// agent go to its bridges. Events of a bridge go to its agent. A request
    /// of a bridge goes to its agent, except that the relay itself lists the
    /// targets and answers for an agent that is not there.
    pub open spec fn routed(self, peer: PeerView, frame: JsonView) -> Seq<DeliveryView> {
        let text = json_text(frame);
        if peer.kind == PeerKind::Agent {
            if is_response(frame) || is_notification(frame) {
                to_bridges(self.bridges, peer.token, text)
            } else {
                Seq::empty()
            }
        } else if is_response(frame) {
            Seq::empty()
        } else if is_notification(frame) {
            match self.agent(peer.token) {
                Some(agent) => seq![DeliveryView { to: agent.handle, text }],
                None => Seq::empty(),
            }
        } else if as_text(member(frame, "method"@)) == Some(method::LIST_TARGETS@) {
            seq![
                DeliveryView {
                    to: peer.handle,
                    text: json_text(targets_frame(request_id(frame), self.agents)),
                },
            ]
        } else {
            match self.agent(peer.token) {
                Some(agent) => seq![DeliveryView { to: agent.handle, text }],
                None => seq![
                    DeliveryView {
                        to: peer.handle,
                        text: json_text(
                            error_frame(
                                request_id(frame),
                                code::AGENT_OFFLINE,
                                "agent is not connected"@,
                            ),
                        ),
                    },
                ],
            }
        }
    }

    /// `frame` of `peer` is a request that its agent is handed.
    pub open spec fn passes_on(self, peer: PeerView, frame: JsonView) -> bool {
        &&& peer.kind == PeerKind::Bridge
        &&& !is_response(frame)
        &&& !is_notification(frame)
        &&& as_text(member(frame, "method"@)) != Some(method::LIST_TARGETS@)
        &&& self.agent(peer.token) is Some
    }

    /// The peer that a `Hello` makes.
    pub open spec fn newcomer(self, hello: Hello, nonce: u32) -> PeerView {
        PeerView {
            handle: self.next,
            kind: hello.kind,
            id: hello.id@,
            name: hello.name@,
            token: hello.token->0@,
            session: session_id(hello.id@, nonce),
        }
    }

    /// The hub once `peer` has joined: an agent takes the place of an earlier
    /// one with its token, a bridge comes last.
    pub open spec fn joined(self, peer: PeerView) -> HubView {
        HubView {
            agents: if peer.kind == PeerKind::Agent {
                without_token(self.agents, peer.token).push(peer)
            } else {
                self.agents
            },
            bridges: if peer.kind == PeerKind::Bridge {
                self.bridges.push(peer)
            } else {
                self.bridges
            },
            next: (self.next + 1) as u64,
            ..self
        }
    }

    /// What is sent when `peer` joins: the bridges of an agent are told, and
    /// the peer is greeted, a bridge with the id of its agent.
    pub open spec fn greeting(self, peer: PeerView) -> Seq<DeliveryView> {
        if peer.kind == PeerKind::Agent {
            to_bridges(
                self.bridges,
                peer.token,
                json_text(agent_connected_frame(peer.id, peer.name)),
            ).push(DeliveryView { to: peer.handle, text: json_text(ack_frame(peer.session, None)) })
        } else {
            let agent_id = match self.agent(peer.token) {
                Some(agent) => Some(agent.id),
                None => None,
            };
            seq![
                DeliveryView {
                    to: peer.handle,
                    text: json_text(ack_frame(peer.session, agent_id)),
                },
            ]
        }
    }

    /// The hub once the connection of `peer` has ended.
    pub open spec fn left(self, peer: PeerView) -> HubView {
        HubView {
            agents: if peer.kind == PeerKind::Agent {
                without_token(self.agents, peer.token)
            } else {
                self.agents
            },
            bridges: if peer.kind == PeerKind::Bridge {
                without_handle(self.bridges, peer.handle)
            } else {
                self.bridges
            },
            ..self
        }
    }

    /// What is sent when the connection of `peer` has ended.
    pub open spec fn farewell(self, peer: PeerView) -> Seq<DeliveryView> {
        if peer.kind == PeerKind::Agent {
            to_bridges(self.bridges, peer.token, json_text(agent_gone_frame(peer.id)))
        } else {
            Seq::empty()
        }
    }
}

// ---------------------------------------------------------------------------
// The hub at work
// ---------------------------------------------------------------------------

/// Two lists of deliveries, one after the other.
proof fn lemma_deliveries_push(v: Seq<Delivery>, d: Delivery)
    ensures
        deliveries(v.push(d)) == deliveries(v).push(d@),
{
    assert(deliveries(v.push(d)) =~= deliveries(v).push(d@));
}

/// The agent with `token` stands at one place.
proof fn lemma_agent_at(hub: HubView, i: int)
    requires
        hub.inv(),
        0 <= i < hub.agents.len(),
    ensures
        hub.agent(hub.agents[i].token) == Some(hub.agents[i]),
{
    let token = hub.agents[i].token;
    let j = choose|j: int| 0 <= j < hub.agents.len() && (#[trigger] hub.agents[j]).token == token;
    if j < i {
        assert(hub.agents[j].token != hub.agents[i].token);
    } else if i < j {
        assert(hub.agents[i].token != hub.agents[j].token);
    }
}

/// What is left without `token` are other agents, in their order.
proof fn lemma_without_token(agents: Seq<PeerView>, token: Seq<char>)
    ensures
        without_token(agents, token).len() <= agents.len(),
        forall|i: int|
            0 <= i < without_token(agents, token).len() ==> (#[trigger] without_token(
                agents,
                token,
            )[i]).token != token && agents.contains(without_token(agents, token)[i]),
        (forall|i: int, j: int|
            0 <= i < j < agents.len() ==> (#[trigger] agents[i]).token != (
            #[trigger] agents[j]).token) ==> forall|i: int, j: int|
            0 <= i < j < without_token(agents, token).len() ==> (#[trigger] without_token(
                agents,
                token,
            )[i]).token != (#[trigger] without_token(agents, token)[j]).token,
        (forall|i: int| 0 <= i < agents.len() ==> (#[trigger] agents[i]).token != token)
            ==> without_token(agents, token) == agents,
    decreases agents.len(),
{
    if agents.len() > 0 {
        let front = agents.drop_last();
        lemma_without_token(front, token);
        let rest = without_token(front, token);
        let all = without_token(agents, token);
        assert forall|i: int| 0 <= i < all.len() implies (#[trigger] all[i]).token != token
            && agents.contains(all[i]) by {
            if i < rest.len() {
                assert(all[i] == rest[i]);
                let k = choose|k: int| 0 <= k < front.len() && front[k] == rest[i];
                assert(agents[k] == all[i]);
            } else {
                assert(agents[agents.len() - 1] == all[i]);
            }
        }
        if forall|i: int, j: int|
            0 <= i < j < agents.len() ==> (#[trigger] agents[i]).token != (
            #[trigger] agents[j]).token {
            assert forall|i: int, j: int| 0 <= i < j < front.len() implies (
            #[trigger] front[i]).token != (#[trigger] front[j]).token by {
                assert(agents[i].token != agents[j].token);
            }
            assert forall|i: int, j: int| 0 <= i < j < all.len() implies (
            #[trigger] all[i]).token != (#[trigger] all[j]).token by {
                assert(all[i] == rest[i]);
                if j < rest.len() {
                    assert(all[j] == rest[j]);
                } else {
                    let k = choose|k: int| 0 <= k < front.len() && front[k] == rest[i];
                    assert(agents[k].token != agents[agents.len() - 1].token);
                }
            }
        }
        if forall|i: int| 0 <= i < agents.len() ==> (#[trigger] agents[i]).token != token {
            assert forall|i: int| 0 <= i < front.len() implies (#[trigger] front[i]).token
                != token by {
                assert(agents[i].token != token);
            }
            assert(agents[agents.len() - 1].token != token);
            assert(front.push(agents.last()) =~= agents);
        }
    }
}

/// What is left without `handle` are other bridges, in their order.
proof fn lemma_without_handle(bridges: Seq<PeerView>, handle: u64)
    ensures
        without_handle(bridges, handle).len() <= bridges.len(),
        forall|i: int|
            0 <= i < without_handle(bridges, handle).len() ==> (#[trigger] without_handle(
                bridges,
                handle,
            )[i]).handle != handle && bridges.contains(without_handle(bridges, handle)[i]),
        (forall|i: int, j: int|
            0 <= i < j < bridges.len() ==> (#[trigger] bridges[i]).handle != (
            #[trigger] bridges[j]).handle) ==> forall|i: int, j: int|
            0 <= i < j < without_handle(bridges, handle).len() ==> (#[trigger] without_handle(
                bridges,
                handle,
            )[i]).handle != (#[trigger] without_handle(bridges, handle)[j]).handle,
    decreases bridges.len(),
{
    if bridges.len() > 0 {
        let front = bridges.drop_last();
        lemma_without_handle(front, handle);
        let rest = without_handle(front, handle);
        let all = without_handle(bridges, handle);
        assert forall|i: int| 0 <= i < all.len() implies (#[trigger] all[i]).handle != handle
            && bridges.contains(all[i]) by {
            if i < rest.len() {
                assert(all[i] == rest[i]);
                let k = choose|k: int| 0 <= k < front.len() && front[k] == rest[i];
                assert(bridges[k] == all[i]);
            } else {
                assert(bridges[bridges.len() - 1] == all[i]);
            }
        }
        if forall|i: int, j: int|
            0 <= i < j < bridges.len() ==> (#[trigger] bridges[i]).handle != (
            #[trigger] bridges[j]).handle {
            assert forall|i: int, j: int| 0 <= i < j < front.len() implies (
            #[trigger] front[i]).handle != (#[trigger] front[j]).handle by {
                assert(bridges[i].handle != bridges[j].handle);
            }
            assert forall|i: int, j: int| 0 <= i < j < all.len() implies (
            #[trigger] all[i]).handle != (#[trigger] all[j]).handle by {
                assert(all[i] == rest[i]);
                if j < rest.len() {
                    assert(all[j] == rest[j]);
                } else {
                    let k = choose|k: int| 0 <= k < front.len() && front[k] == rest[i];
                    assert(bridges[k].handle != bridges[bridges.len() - 1].handle);
                }
            }
        }
    }
}

/// The hub without the agent at `i` is the hub without its token.
proof fn lemma_remove_token(agents: Seq<PeerView>, token: Seq<char>, i: int)
    requires
        0 <= i < agents.len(),
        agents[i].token == token,
        forall|a: int, b: int|
            0 <= a < b < agents.len() ==> (#[trigger] agents[a]).token != (
            #[trigger] agents[b]).token,
    ensures
        without_token(agents, token) == agents.remove(i),
    decreases agents.len(),
{
    let front = agents.drop_last();
    if i == agents.len() - 1 {
        assert forall|k: int| 0 <= k < front.len() implies (#[trigger] front[k]).token != token by {
            assert(agents[k].token != agents[i].token);
        }
        lemma_without_token(front, token);
        assert(agents.remove(i) =~= front);
    } else {
        assert forall|a: int, b: int| 0 <= a < b < front.len() implies (#[trigger] front[a]).token
            != (#[trigger] front[b]).token by {
            assert(agents[a].token != agents[b].token);
        }
        assert(front[i] == agents[i]);
        lemma_remove_token(front, token, i);
        assert(agents[i].token != agents[agents.len() - 1].token);
        assert(front.remove(i).push(agents.last()) =~= agents.remove(i));
    }
}

/// Where no bridge has `handle`, none is taken out.
proof fn lemma_handle_absent(bridges: Seq<PeerView>, handle: u64)
    requires
        forall|i: int| 0 <= i < bridges.len() ==> (#[trigger] bridges[i]).handle != handle,
    ensures
        without_handle(bridges, handle) == bridges,
    decreases bridges.len(),
{
    if bridges.len() > 0 {
        let front = bridges.drop_last();
        assert forall|i: int| 0 <= i < front.len() implies (#[trigger] front[i]).handle
            != handle by {
            assert(bridges[i].handle != handle);
        }
        lemma_handle_absent(front, handle);
        assert(bridges[bridges.len() - 1].handle != handle);
        assert(front.push(bridges.last()) =~= bridges);
    }
}

/// The hub without the bridge at `i` is the hub without its connection.
proof fn lemma_remove_handle(bridges: Seq<PeerView>, handle: u64, i: int)
    requires
        0 <= i < bridges.len(),
        bridges[i].handle == handle,
        forall|a: int, b: int|
            0 <= a < b < bridges.len() ==> (#[trigger] bridges[a]).handle != (
            #[trigger] bridges[b]).handle,
    ensures
        without_handle(bridges, handle) == bridges.remove(i),
    decreases bridges.len(),
{
    let front = bridges.drop_last();
    if i == bridges.len() - 1 {
        assert forall|k: int| 0 <= k < front.len() implies (#[trigger] front[k]).handle
            != handle by {
            assert(bridges[k].handle != bridges[i].handle);
        }
        lemma_handle_absent(front, handle);
        assert(bridges.remove(i) =~= front);
    } else {
        assert forall|a: int, b: int| 0 <= a < b < front.len() implies (
        #[trigger] front[a]).handle != (#[trigger] front[b]).handle by {
            assert(bridges[a].handle != bridges[b].handle);
        }
        assert(front[i] == bridges[i]);
        lemma_remove_handle(front, handle, i);
        assert(bridges[i].handle != bridges[bridges.len() - 1].handle);
        assert(front.remove(i).push(bridges.last()) =~= bridges.remove(i));
    }
}

/// The hub stays in order when a peer leaves.
proof fn lemma_leaving_keeps_order(hub: HubView, peer: PeerView)
    requires
        hub.inv(),
    ensures
        hub.left(peer).inv(),
{
    lemma_without_token(hub.agents, peer.token);
    lemma_without_handle(hub.bridges, peer.handle);
    let rest = without_token(hub.agents, peer.token);
    let others = without_handle(hub.bridges, peer.handle);
    assert forall|i: int| 0 <= i < rest.len() implies (#[trigger] rest[i]).handle < hub.next
        && rest[i].kind == PeerKind::Agent by {
        let k = choose|k: int| 0 <= k < hub.agents.len() && hub.agents[k] == rest[i];
        assert(hub.agents[k].handle < hub.next);
    }
    assert forall|i: int| 0 <= i < others.len() implies (#[trigger] others[i]).handle < hub.next
        && others[i].kind == PeerKind::Bridge by {
        let k = choose|k: int| 0 <= k < hub.bridges.len() && hub.bridges[k] == others[i];
        assert(hub.bridges[k].handle < hub.next);
    }
    assert forall|i: int, j: int| 0 <= i < j < rest.len() implies (#[trigger] rest[i]).handle != (
    #[trigger] rest[j]).handle by {
        let k = choose|k: int| 0 <= k < hub.agents.len() && hub.agents[k] == rest[i];
        let l = choose|l: int| 0 <= l < hub.agents.len() && hub.agents[l] == rest[j];
        assert(rest[i].token != rest[j].token);
        if k < l {
            assert(hub.agents[k].handle != hub.agents[l].handle);
        } else {
            assert(hub.agents[l].handle != hub.agents[k].handle);
        }
    }
    assert forall|i: int, j: int| 0 <= i < rest.len() && 0 <= j < hub.bridges.len() implies (
    #[trigger] rest[i]).handle != (#[trigger] hub.bridges[j]).handle by {
        let k = choose|k: int| 0 <= k < hub.agents.len() && hub.agents[k] == rest[i];
        assert(hub.agents[k].handle != hub.bridges[j].handle);
    }
    assert forall|i: int, j: int| 0 <= i < hub.agents.len() && 0 <= j < others.len() implies (
    #[trigger] hub.agents[i]).handle != (#[trigger] others[j]).handle by {
        let k = choose|k: int| 0 <= k < hub.bridges.len() && hub.bridges[k] == others[j];
        assert(hub.agents[i].handle != hub.bridges[k].handle);
    }
}

/// The hub stays in order when a peer joins.
proof fn lemma_joining_keeps_order(hub: HubView, peer: PeerView)
    requires
        hub.inv(),
        hub.next < u64::MAX,
        peer.handle == hub.next,
    ensures
        hub.joined(peer).inv(),
{
    lemma_leaving_keeps_order(hub, peer);
    lemma_without_token(hub.agents, peer.token);
    let rest = without_token(hub.agents, peer.token);
    let after = hub.joined(peer);
    assert forall|i: int| 0 <= i < after.agents.len() implies (#[trigger] after.agents[i]).handle
        < after.next && after.agents[i].kind == PeerKind::Agent by {
        if peer.kind == PeerKind::Agent {
            if i < rest.len() {
                assert(after.agents[i] == rest[i]);
                assert(hub.left(peer).agents[i].handle < hub.next);
            }
        } else {
            assert(after.agents[i] == hub.agents[i]);
        }
    }
    assert forall|i: int, j: int| 0 <= i < j < after.agents.len() implies (
    #[trigger] after.agents[i]).token != (#[trigger] after.agents[j]).token by {
        if peer.kind == PeerKind::Agent {
            assert(after.agents[i] == rest[i]);
            if j < rest.len() {
                assert(after.agents[j] == rest[j]);
            }
        } else {
            assert(hub.agents[i].token != hub.agents[j].token);
        }
    }
    assert forall|i: int| 0 <= i < after.bridges.len() implies (#[trigger] after.bridges[i]).handle
        < after.next && after.bridges[i].kind == PeerKind::Bridge by {
        if i < hub.bridges.len() {
            assert(after.bridges[i] == hub.bridges[i]);
        }
    }
    assert forall|i: int, j: int| 0 <= i < j < after.bridges.len() implies (
    #[trigger] after.bridges[i]).handle != (#[trigger] after.bridges[j]).handle by {
        assert(after.bridges[i] == hub.bridges[i]);
        if j < hub.bridges.len() {
            assert(after.bridges[j] == hub.bridges[j]);
        }
    }
}

impl AppState {
    /// A hub without peers.
    pub fn new(token: Option<String>) -> (res: Self)
        ensures
            res@.inv(),
            res@.agents == Seq::<PeerView>::empty(),
            res@.bridges == Seq::<PeerView>::empty(),
            res@.required_token == opt_text(token),
            res@.next == 0,
    {
        let res = AppState {
            agents: Vec::new(),
            bridges: Vec::new(),
            required_token: token,
            next: 0,
        };
        assert(res@.agents =~= Seq::<PeerView>::empty());
        assert(res@.bridges =~= Seq::<PeerView>::empty());
        res
    }

    /// The token of a peer that is let in.
    pub fn admitted_token(&self, hello: &Hello) -> (res: Option<String>)
        ensures
            self@.admits(opt_text(hello.token)) ==> opt_text(res) == opt_text(hello.token),
            !self@.admits(opt_text(hello.token)) ==> res is None,
            res is Some <==> hello.token is Some && hello.token->0@.len() > 0 && (
            self@.required_token is None || self@.required_token->0 == hello.token->0@),
            res is Some ==> res->0@ == hello.token->0@,
    {
        match &hello.token {
            Some(token) => {
                if token.as_str().unicode_len() == 0 {
                    return None;
                }
                if let Some(required) = &self.required_token {
                    if *token.as_str() != *required.as_str() {
                        return None;
                    }
                }
                Some(token.clone())
            },
            None => None,
        }
    }

    /// Where the agent with `token` stands.
    fn find_agent(&self, token: &str) -> (res: Option<usize>)
        requires
            self@.inv(),
        ensures
            match res {
                Some(i) => i < self@.agents.len() && self@.agent(token@) == Some(
                    self@.agents[i as int],
                ) && self@.agents[i as int].token == token@,
                None => self@.agent(token@) is None,
            },
    {
        let mut i: usize = 0;
        while i < self.agents.len()
            invariant
                self@.inv(),
                i <= self.agents@.len(),
                forall|k: int| 0 <= k < i ==> (#[trigger] self@.agents[k]).token != token@,
            decreases self.agents@.len() - i,
        {
            assert(self@.agents[i as int] == self.agents@[i as int]@);
            if *self.agents[i].token.as_str() == *token {
                proof {
                    lemma_agent_at(self@, i as int);
                }
                return Some(i);
            }
            i += 1;
        }
        None
    }

    /// `text` to every bridge that is paired by `token`.
    fn forward_to_bridges(&self, token: &str, text: &str) -> (res: Vec<Delivery>)
        ensures
            deliveries(res@) == to_bridges(self@.bridges, token@, text@),
    {
        let mut out: Vec<Delivery> = Vec::new();
        let mut i: usize = 0;
        assert(self@.bridges.take(0) =~= Seq::<PeerView>::empty());
        assert(deliveries(out@) =~= Seq::<DeliveryView>::empty());
        while i < self.bridges.len()
            invariant
                i <= self.bridges@.len(),
                self.bridges@.len() == self@.bridges.len(),
                deliveries(out@) == to_bridges(self@.bridges.take(i as int), token@, text@),
            decreases self.bridges@.len() - i,
        {
            let ghost before = out@;
            proof {
                let front = self@.bridges.take(i as int);
                assert(self@.bridges.take(i + 1).drop_last() =~= front);
                assert(self@.bridges[i as int] == self.bridges@[i as int]@);
            }
            if *self.bridges[i].token.as_str() == *token {
                out.push(Delivery { to: self.bridges[i].handle, text: text.to_owned() });
                proof {
                    lemma_deliveries_push(before, out@[before.len() as int]);
                    assert(out@ =~= before.push(out@[before.len() as int]));
                }
            }
            i += 1;
        }
        assert(self@.bridges.take(i as int) =~= self@.bridges);
        out
    }

    /// Takes the agent with `token` out.
    fn remove_agent(&mut self, token: &str)
        requires
            old(self)@.inv(),
        ensures
            final(self)@ == (HubView {
                agents: without_token(old(self)@.agents, token@),
                ..old(self)@
            }),
    {
        let ghost before = self@;
        match self.find_agent(token) {
            Some(i) => {
                self.agents.remove(i);
                proof {
                    lemma_remove_token(before.agents, token@, i as int);
                    assert(self@.agents =~= before.agents.remove(i as int));
                    assert(self@ =~= HubView {
                        agents: without_token(before.agents, token@),
                        ..before
                    });
                }
            },
            None => {
                proof {
                    assert forall|i: int| 0 <= i < before.agents.len() implies (
                    #[trigger] before.agents[i]).token != token@ by {
                        if before.agents[i].token == token@ {
                            lemma_agent_at(before, i);
                        }
                    }
                    lemma_without_token(before.agents, token@);
                }
            },
        }
    }

    /// Takes the bridge with `handle` out.
    fn remove_bridge(&mut self, handle: u64)
        requires
            old(self)@.inv(),
        ensures
            final(self)@ == (HubView {
                bridges: without_handle(old(self)@.bridges, handle),
                ..old(self)@
            }),
    {
        let ghost before = self@;
        let mut i: usize = 0;
        while i < self.bridges.len()
            invariant
                self@ == before,
                before == old(self)@,
                before.inv(),
                i <= self.bridges@.len(),
                forall|k: int| 0 <= k < i ==> (#[trigger] before.bridges[k]).handle != handle,
            decreases self.bridges@.len() - i,
        {
            assert(self@.bridges[i as int] == self.bridges@[i as int]@);
            if self.bridges[i].handle == handle {
                self.bridges.remove(i);
                proof {
                    lemma_remove_handle(before.bridges, handle, i as int);
                    assert(self@.bridges =~= before.bridges.remove(i as int));
                    assert(self@ =~= HubView {
                        bridges: without_handle(before.bridges, handle),
                        ..before
                    });
                }
                return ;
            }
            i += 1;
        }
        proof {
            lemma_handle_absent(before.bridges, handle);
        }
    }

    /// Whether another connection can be numbered.
    pub fn has_room(&self) -> (res: bool)
        ensures
            res == (self@.next < u64::MAX),
    {
        self.next < u64::MAX
    }

    /// A peer has said `Hello`. `nonce` sets its session apart. `None` means
    /// that the peer is not let in, and nothing has changed.
    pub fn connect(&mut self, hello: &Hello, nonce: u32) -> (res: Option<
        (RelayPeer, Vec<Delivery>),
    >)
        requires
            old(self)@.inv(),
            old(self)@.next < u64::MAX,
        ensures
            final(self)@.inv(),
            match res {
                Some((peer, send)) => {
                    &&& old(self)@.admits(opt_text(hello.token))
                    &&& peer@ == old(self)@.newcomer(*hello, nonce)
                    &&& final(self)@ == old(self)@.joined(peer@)
                    &&& deliveries(send@) == old(self)@.greeting(peer@)
                    &&& hello.token is Some && hello.token->0@.len() > 0
                    &&& old(self)@.required_token is Some ==> old(self)@.required_token->0
                        == hello.token->0@
                    &&& peer.handle == old(self)@.next
                    &&& peer.kind == hello.kind
                    &&& peer.id@ == hello.id@
                    &&& peer.name@ == hello.name@
                    &&& peer.token@ == hello.token->0@
                    &&& peer.session@ == hello.id@ + "-"@ + decimal(nonce as nat)
                },
                None => {
                    &&& !old(self)@.admits(opt_text(hello.token))
                    &&& final(self)@ == old(self)@
                    &&& hello.token is None || hello.token->0@.len() == 0 || (
                    old(self)@.required_token is Some && old(self)@.required_token->0
                        != hello.token->0@)
                },
            },
    {
        let ghost before = self@;
        let token = match self.admitted_token(hello) {
            Some(token) => token,
            None => {
                return None;
            },
        };
        let mut session = hello.id.clone();
        session.append("-");
        push_decimal(&mut session, nonce as u64);
        assert(session@ =~= session_id(hello.id@, nonce));
        let peer = RelayPeer {
            handle: self.next,
            kind: hello.kind,
            id: hello.id.clone(),
            name: hello.name.clone(),
            token,
            session,
        };
        proof {
            lemma_joining_keeps_order(before, peer@);
        }
        let mut send: Vec<Delivery>;
        let mut params = new_object();
        put(&mut params, "session", of_text(peer.session.as_str()));
        match hello.kind {
            PeerKind::Agent => {
                let mut about = new_object();
                put(&mut about, "agent_id", of_text(peer.id.as_str()));
                put(&mut about, "name", of_text(peer.name.as_str()));
                let joined = notification_value(notify::AGENT_CONNECTED, about);
                send = self.forward_to_bridges(peer.token.as_str(), render(&joined).as_str());
                self.remove_agent(peer.token.as_str());
                let ghost rest = self@.agents;
                self.agents.push(peer.copy());
                assert(self@.agents =~= rest.push(peer@));
            },
            PeerKind::Bridge => {
                send = Vec::new();
                assert(deliveries(send@) =~= Seq::<DeliveryView>::empty());
                if let Some(i) = self.find_agent(peer.token.as_str()) {
                    assert(self@.agents[i as int] == self.agents@[i as int]@);
                    put(&mut params, "agent_id", of_text(self.agents[i].id.as_str()));
                }
                self.bridges.push(peer.copy());
                assert(self@.bridges =~= before.bridges.push(peer@));
            },
        }
        self.next = self.next + 1;
        let ack = notification_value(notify::HELLO_ACK, params);
        let ghost sent = send@;
        send.push(Delivery { to: peer.handle, text: render(&ack) });
        proof {
            lemma_deliveries_push(sent, send@[sent.len() as int]);
            assert(send@ =~= sent.push(send@[sent.len() as int]));
            assert(self@ =~= before.joined(peer@));
            assert(deliveries(send@) =~= before.greeting(peer@));
        }
        Some((peer, send))
    }

    /// A peer has said `Hello`; its session gets a random number.
    pub fn accept(&mut self, hello: &Hello) -> (res: Option<(RelayPeer, Vec<Delivery>)>)
        requires
            old(self)@.inv(),
            old(self)@.next < u64::MAX,
        ensures
            final(self)@.inv(),
            match res {
                Some((peer, send)) => {
                    &&& old(self)@.admits(opt_text(hello.token))
                    &&& exists|nonce: u32| #[trigger]
                        old(self)@.newcomer(*hello, nonce) == peer@
                    &&& final(self)@ == old(self)@.joined(peer@)
                    &&& deliveries(send@) == old(self)@.greeting(peer@)
                },
                None => !old(self)@.admits(opt_text(hello.token)) && final(self)@ == old(self)@,
            },
    {
        self.connect(hello, random_u32())
    }

    /// A frame has come from `peer`.
    pub fn receive(&self, peer: &RelayPeer, frame: &serde_json::Value) -> (res: Reaction)
        requires
            self@.inv(),
        ensures
            deliveries(res.send@) == self@.routed(peer@, json_view(*frame)),
            res.answer_failure == (if self@.passes_on(peer@, json_view(*frame)) {
                Some(request_id(json_view(*frame)))
            } else {
                None
            }),
            res.answer_failure is Some ==> peer.kind == PeerKind::Bridge && res.send@.len() == 1
                && res.send@[0].text@ == json_text(json_view(*frame)) && self@.agent(
                peer.token@,
            ) is Some && res.send@[0].to == self@.agent(peer.token@)->0.handle,
            res.answer_failure is Some && as_unsigned(member(json_view(*frame), "id"@)) is Some
                ==> res.answer_failure == as_unsigned(member(json_view(*frame), "id"@)),
            res.answer_failure is Some <==> peer.kind == PeerKind::Bridge && (member(
                json_view(*frame),
                "id"@,
            ) is Some) == (member(json_view(*frame), "method"@) is Some) && as_text(
                member(json_view(*frame), "method"@),
            ) != Some("list_targets"@) && self@.agent(peer.token@) is Some,
    {
        let has_id = has_member(frame, "id");
        let has_method = has_member(frame, "method");
        let mut send: Vec<Delivery> = Vec::new();
        let mut answer_failure: Option<u64> = None;
        assert(deliveries(send@) =~= Seq::<DeliveryView>::empty());
        match peer.kind {
            PeerKind::Agent => {
                if has_id != has_method {
                    send = self.forward_to_bridges(peer.token.as_str(), render(frame).as_str());
                }
            },
            PeerKind::Bridge => {
                if has_id && !has_method {
                    return Reaction { send, answer_failure };
                }
                let agent = self.find_agent(peer.token.as_str());
                let to: u64;
                let text: String;
                if has_method && !has_id {
                    match agent {
                        Some(i) => {
                            assert(self@.agents[i as int] == self.agents@[i as int]@);
                            to = self.agents[i].handle;
                            text = render(frame);
                        },
                        None => {
                            return Reaction { send, answer_failure };
                        },
                    }
                } else {
                    let id = match u64_member(frame, "id") {
                        Some(id) => id,
                        None => 0,
                    };
                    let lists = match text_member(frame, "method") {
                        Some(name) => *name.as_str() == *method::LIST_TARGETS,
                        None => false,
                    };
                    if lists {
                        to = peer.handle;
                        text = self.targets_text(id);
                    } else {
                        match agent {
                            Some(i) => {
                                assert(self@.agents[i as int] == self.agents@[i as int]@);
                                to = self.agents[i].handle;
                                text = render(frame);
                                answer_failure = Some(id);
                            },
                            None => {
                                to = peer.handle;
                                text = error_text(
                                    id,
                                    code::AGENT_OFFLINE,
                                    "agent is not connected",
                                );
                            },
                        }
                    }
                }
                send.push(Delivery { to, text });
                assert(deliveries(send@) =~= seq![DeliveryView { to, text: text@ }]);
            },
        }
        Reaction { send, answer_failure }
    }

    /// The answer to `list_targets`.
    fn targets_text(&self, id: u64) -> (res: String)
        ensures
            res@ == json_text(targets_frame(id, self@.agents)),
    {
        let mut targets: Vec<serde_json::Value> = Vec::new();
        let ghost views = self@.agents.map_values(|p: PeerView| target_view(p));
        let mut i: usize = 0;
        while i < self.agents.len()
            invariant
                i <= self.agents@.len(),
                self.agents@.len() == self@.agents.len(),
                views == self@.agents.map_values(|p: PeerView| target_view(p)),
                targets@.len() == i,
                forall|k: int| 0 <= k < i ==> json_view(#[trigger] targets@[k]) == views[k],
            decreases self.agents@.len() - i,
        {
            assert(self@.agents[i as int] == self.agents@[i as int]@);
            let agent = &self.agents[i];
            let mut target = new_object();
            put(&mut target, "id", of_text(agent.id.as_str()));
            put(&mut target, "name", of_text(agent.name.as_str()));
            put(&mut target, "session", of_text(agent.session.as_str()));
            assert(json_view(target) == target_view(agent@));
            targets.push(target);
            i += 1;
        }
        assert(crate::json::json_views(targets@) =~= views);
        let mut result = new_object();
        put(&mut result, "targets", of_array(targets));
        render(&response_value(id, Some(result), None))
    }

    /// A request of `peer` could not be passed on: `peer` is told why.
    pub fn forward_failed(peer: &RelayPeer, id: u64, error: &str) -> (res: Delivery)
        ensures
            res@ == (DeliveryView {
                to: peer.handle,
                text: json_text(
                    error_frame(id, code::INTERNAL_ERROR, "agent forward failed: "@ + error@),
                ),
            }),
            res.text@ == json_text(
                JsonView::Object(
                    map![
                        "jsonrpc"@ => JsonView::Text("2.0"@),
                        "id"@ => crate::json::unsigned(id),
                        "error"@ => JsonView::Object(
                            map![
                                "code"@ => crate::json::signed(-32603i64),
                                "message"@ => JsonView::Text("agent forward failed: "@ + error@),
                            ],
                        ),
                    ],
                ),
            ),
    {
        let mut message = "agent forward failed: ".to_owned();
        message.append(error);
        Delivery {
            to: peer.handle,
            text: error_text(id, code::INTERNAL_ERROR, message.as_str()),
        }
    }

    /// The connection of `peer` has ended.
    pub fn disconnect(&mut self, peer: &RelayPeer) -> (send: Vec<Delivery>)
        requires
            old(self)@.inv(),
        ensures
            final(self)@.inv(),
            final(self)@ == old(self)@.left(peer@),
            deliveries(send@) == old(self)@.farewell(peer@),
    {
        let ghost before = self@;
        proof {
            lemma_leaving_keeps_order(before, peer@);
        }
        match peer.kind {
            PeerKind::Agent => {
                let mut about = new_object();
                put(&mut about, "agent_id", of_text(peer.id.as_str()));
                let gone = notification_value(notify::AGENT_DISCONNECTED, about);
                let send = self.forward_to_bridges(peer.token.as_str(), render(&gone).as_str());
                self.remove_agent(peer.token.as_str());
                send
            },
            PeerKind::Bridge => {
                self.remove_bridge(peer.handle);
                let send: Vec<Delivery> = Vec::new();
                assert(deliveries(send@) =~= Seq::<DeliveryView>::empty());
                send
            },
        }
    }
}

// ---------------------------------------------------------------------------
// Laws of the hub
// ---------------------------------------------------------------------------

impl HubView {
    /// The connection `to` belongs to a peer that is paired by `token`.
    pub open spec fn is_paired(self, to: u64, token: Seq<char>) -> bool {
        ||| exists|i: int|
            0 <= i < self.bridges.len() && (#[trigger] self.bridges[i]).handle == to
                && self.bridges[i].token == token
        ||| self.agent(token) is Some && self.agent(token)->0.handle == to
    }
}

/// What goes to the bridges of a token goes to each of them, and to no other
/// connection.
pub proof fn lemma_to_bridges(bridges: Seq<PeerView>, token: Seq<char>, text: Seq<char>)
    ensures
        forall|k: int|
            0 <= k < to_bridges(bridges, token, text).len() ==> (#[trigger] to_bridges(
                bridges,
                token,
                text,
            )[k]).text == text && exists|i: int|
                0 <= i < bridges.len() && (#[trigger] bridges[i]).token == token
                    && bridges[i].handle == to_bridges(bridges, token, text)[k].to,
        forall|i: int|
            0 <= i < bridges.len() && (#[trigger] bridges[i]).token == token ==> to_bridges(
                bridges,
                token,
                text,
            ).contains(DeliveryView { to: bridges[i].handle, text }),
    decreases bridges.len(),
{
    if bridges.len() > 0 {
        let front = bridges.drop_last();
        lemma_to_bridges(front, token, text);
        let rest = to_bridges(front, token, text);
        let all = to_bridges(bridges, token, text);
        assert forall|k: int| 0 <= k < all.len() implies (#[trigger] all[k]).text == text
            && exists|i: int|
            0 <= i < bridges.len() && (#[trigger] bridges[i]).token == token && bridges[i].handle
                == all[k].to by {
            if k < rest.len() {
                assert(all[k] == rest[k]);
                let i = choose|i: int|
                    0 <= i < front.len() && (#[trigger] front[i]).token == token && front[i].handle
                        == rest[k].to;
                assert(bridges[i] == front[i]);
            } else {
                assert(bridges[bridges.len() - 1].token == token);
            }
        }
        assert forall|i: int|
            0 <= i < bridges.len() && (#[trigger] bridges[i]).token == token implies all.contains(
            DeliveryView { to: bridges[i].handle, text },
        ) by {
            if i < front.len() {
                assert(front[i] == bridges[i]);
                let k = choose|k: int|
                    0 <= k < rest.len() && rest[k] == DeliveryView { to: bridges[i].handle, text };
                assert(all[k] == rest[k]);
            } else {
                assert(all[rest.len() as int] == DeliveryView { to: bridges[i].handle, text });
            }
        }
    }
}

/// What goes to the bridges of a token goes to none of them twice.
pub proof fn lemma_no_bridge_is_sent_to_twice(hub: HubView, token: Seq<char>, text: Seq<char>)
    requires
        hub.inv(),
    ensures
        forall|k: int, l: int|
            0 <= k < l < to_bridges(hub.bridges, token, text).len() ==> (#[trigger] to_bridges(
                hub.bridges,
                token,
                text,
            )[k]).to != (#[trigger] to_bridges(hub.bridges, token, text)[l]).to,
    decreases hub.bridges.len(),
{
    let bridges = hub.bridges;
    if bridges.len() > 0 {
        let front = HubView { bridges: bridges.drop_last(), ..hub };
        assert forall|i: int| 0 <= i < front.bridges.len() implies (
        #[trigger] front.bridges[i]).handle < front.next && front.bridges[i].kind
            == PeerKind::Bridge by {
            assert(front.bridges[i] == bridges[i]);
        }
        assert forall|i: int, j: int| 0 <= i < j < front.bridges.len() implies (
        #[trigger] front.bridges[i]).handle != (#[trigger] front.bridges[j]).handle by {
            assert(bridges[i].handle != bridges[j].handle);
        }
        lemma_no_bridge_is_sent_to_twice(front, token, text);
        lemma_to_bridges(front.bridges, token, text);
        let rest = to_bridges(front.bridges, token, text);
        let all = to_bridges(bridges, token, text);
        assert forall|k: int, l: int| 0 <= k < l < all.len() implies (#[trigger] all[k]).to != (
        #[trigger] all[l]).to by {
            assert(all[k] == rest[k]);
            if l < rest.len() {
                assert(all[l] == rest[l]);
            } else {
                let i = choose|i: int|
                    0 <= i < front.bridges.len() && (#[trigger] front.bridges[i]).token == token
                        && front.bridges[i].handle == rest[k].to;
                assert(bridges[i].handle != bridges[bridges.len() - 1].handle);
            }
        }
    }
}

/// A connection is that of one peer: where it belongs to a pair, so does the
/// peer that has it.
proof fn lemma_connection_is_one_peer(hub: HubView, peer: PeerView, token: Seq<char>)
    requires
        hub.inv(),
        hub.holds(peer),
        hub.is_paired(peer.handle, token),
    ensures
        peer.token == token,
{
    if exists|i: int|
        0 <= i < hub.bridges.len() && (#[trigger] hub.bridges[i]).handle == peer.handle
            && hub.bridges[i].token == token {
        let i = choose|i: int|
            0 <= i < hub.bridges.len() && (#[trigger] hub.bridges[i]).handle == peer.handle
                && hub.bridges[i].token == token;
        if hub.agents.contains(peer) {
            let k = choose|k: int| 0 <= k < hub.agents.len() && hub.agents[k] == peer;
            assert(hub.agents[k].handle != hub.bridges[i].handle);
        } else {
            let k = choose|k: int| 0 <= k < hub.bridges.len() && hub.bridges[k] == peer;
            if k < i {
                assert(hub.bridges[k].handle != hub.bridges[i].handle);
            } else if i < k {
                assert(hub.bridges[i].handle != hub.bridges[k].handle);
            }
        }
    } else {
        let i = choose|i: int|
            0 <= i < hub.agents.len() && (#[trigger] hub.agents[i]).token == token;
        if hub.bridges.contains(peer) {
            let k = choose|k: int| 0 <= k < hub.bridges.len() && hub.bridges[k] == peer;
            assert(hub.agents[i].handle != hub.bridges[k].handle);
        } else {
            let k = choose|k: int| 0 <= k < hub.agents.len() && hub.agents[k] == peer;
            if k < i {
                assert(hub.agents[k].handle != hub.agents[i].handle);
            } else if i < k {
                assert(hub.agents[i].handle != hub.agents[k].handle);
            }
        }
    }
}

/// Frames stay within the pair: whatever comes from a peer, what is sent on
/// goes to the peer itself or to a peer with the same token.
pub proof fn lemma_frames_stay_within_the_pair(hub: HubView, peer: PeerView, frame: JsonView)
    requires
        hub.inv(),
    ensures
        forall|k: int|
            0 <= k < hub.routed(peer, frame).len() ==> {
                let to = (#[trigger] hub.routed(peer, frame)[k]).to;
                to == peer.handle || hub.is_paired(to, peer.token)
            },
        forall|k: int, other: PeerView|
            0 <= k < hub.routed(peer, frame).len() && #[trigger] hub.holds(other) && (
            #[trigger] hub.routed(peer, frame)[k]).to == other.handle ==> other.handle
                == peer.handle || other.token == peer.token,
{
    let out = hub.routed(peer, frame);
    let text = json_text(frame);
    assert forall|k: int| 0 <= k < out.len() implies {
        let to = (#[trigger] out[k]).to;
        to == peer.handle || hub.is_paired(to, peer.token)
    } by {
        if peer.kind == PeerKind::Agent {
            lemma_to_bridges(hub.bridges, peer.token, text);
            assert(out[k] == to_bridges(hub.bridges, peer.token, text)[k]);
        }
    }
    assert forall|k: int, other: PeerView|
        0 <= k < out.len() && #[trigger] hub.holds(other) && (#[trigger] out[k]).to
            == other.handle implies other.handle == peer.handle || other.token
        == peer.token by {
        if out[k].to != peer.handle {
            lemma_connection_is_one_peer(hub, other, peer.token);
        }
    }
}

/// The news of a peer that comes or goes stay within the pair too.
pub proof fn lemma_news_stay_within_the_pair(hub: HubView, peer: PeerView)
    requires
        hub.inv(),
    ensures
        forall|k: int|
            0 <= k < hub.greeting(peer).len() ==> {
                let to = (#[trigger] hub.greeting(peer)[k]).to;
                to == peer.handle || hub.is_paired(to, peer.token)
            },
        forall|k: int|
            0 <= k < hub.farewell(peer).len() ==> hub.is_paired(
                (#[trigger] hub.farewell(peer)[k]).to,
                peer.token,
            ),
{
    let came = json_text(agent_connected_frame(peer.id, peer.name));
    let gone = json_text(agent_gone_frame(peer.id));
    lemma_to_bridges(hub.bridges, peer.token, came);
    lemma_to_bridges(hub.bridges, peer.token, gone);
    assert forall|k: int| 0 <= k < hub.greeting(peer).len() implies {
        let to = (#[trigger] hub.greeting(peer)[k]).to;
        to == peer.handle || hub.is_paired(to, peer.token)
    } by {
        let told = to_bridges(hub.bridges, peer.token, came);
        if peer.kind == PeerKind::Agent && k < told.len() {
            assert(hub.greeting(peer)[k] == told[k]);
        }
    }
    assert forall|k: int| 0 <= k < hub.farewell(peer).len() implies hub.is_paired(
        (#[trigger] hub.farewell(peer)[k]).to,
        peer.token,
    ) by {
        assert(hub.farewell(peer)[k] == to_bridges(hub.bridges, peer.token, gone)[k]);
    }
}

/// Every request of a bridge has exactly one effect: it goes to the agent as
/// it came, or the bridge is answered under the request's own id.
pub proof fn lemma_request_is_passed_on_or_answered(hub: HubView, peer: PeerView, frame: JsonView)
    requires
        peer.kind == PeerKind::Bridge,
        member(frame, "id"@) is Some,
        member(frame, "method"@) is Some,
    ensures
        hub.routed(peer, frame).len() == 1,
        hub.passes_on(peer, frame) ==> hub.routed(peer, frame)[0] == (DeliveryView {
            to: hub.agent(peer.token)->0.handle,
            text: json_text(frame),
        }),
        !hub.passes_on(peer, frame) ==> hub.routed(peer, frame)[0].to == peer.handle && (
        hub.routed(peer, frame)[0].text == json_text(targets_frame(request_id(frame), hub.agents))
            || hub.routed(peer, frame)[0].text == json_text(
            error_frame(request_id(frame), code::AGENT_OFFLINE, "agent is not connected"@),
        )),
{
}

/// An answer of the agent reaches every bridge of the pair as it came.
pub proof fn lemma_answer_reaches_the_bridges(
    hub: HubView,
    agent: PeerView,
    frame: JsonView,
    i: int,
)
    requires
        agent.kind == PeerKind::Agent,
        is_response(frame),
        0 <= i < hub.bridges.len(),
        hub.bridges[i].token == agent.token,
    ensures
        hub.routed(agent, frame).contains(
            DeliveryView { to: hub.bridges[i].handle, text: json_text(frame) },
        ),
{
    lemma_to_bridges(hub.bridges, agent.token, json_text(frame));
}

/// The agent that joined last is the one that its token reaches, and every
/// other token reaches whom it reached before.
pub proof fn lemma_joined_agent_is_reached(hub: HubView, peer: PeerView, token: Seq<char>)
    requires
        hub.inv(),
        hub.next < u64::MAX,
        peer.handle == hub.next,
        peer.kind == PeerKind::Agent,
    ensures
        hub.joined(peer).agent(token) == if token == peer.token {
            Some(peer)
        } else {
            hub.agent(token)
        },
{
    lemma_joining_keeps_order(hub, peer);
    let after = hub.joined(peer);
    let rest = without_token(hub.agents, peer.token);
    if token == peer.token {
        lemma_agent_at(after, rest.len() as int);
    } else {
        lemma_other_agents_stay(hub, peer.token, token);
        lemma_leaving_keeps_order(hub, peer);
        let left = hub.left(peer);
        if left.agent(token) is Some {
            let i = choose|i: int|
                0 <= i < left.agents.len() && (#[trigger] left.agents[i]).token == token;
            assert(after.agents[i] == left.agents[i]);
            lemma_agent_at(after, i);
        } else if after.agent(token) is Some {
            let i = choose|i: int|
                0 <= i < after.agents.len() && (#[trigger] after.agents[i]).token == token;
            assert(after.agents[i] == left.agents[i]);
        }
    }
}

/// Taking out one token leaves the agents of the others.
proof fn lemma_other_agents_stay(hub: HubView, gone: Seq<char>, token: Seq<char>)
    requires
        hub.inv(),
        token != gone,
    ensures
        (HubView { agents: without_token(hub.agents, gone), ..hub }).agent(token) == hub.agent(
            token,
        ),
{
    let after = HubView { agents: without_token(hub.agents, gone), ..hub };
    let peer = PeerView {
        handle: 0,
        kind: PeerKind::Agent,
        id: gone,
        name: gone,
        token: gone,
        session: gone,
    };
    lemma_leaving_keeps_order(hub, peer);
    assert(after =~= hub.left(peer));
    lemma_without_token(hub.agents, gone);
    if hub.agent(token) is Some {
        let i = choose|i: int|
            0 <= i < hub.agents.len() && (#[trigger] hub.agents[i]).token == token;
        lemma_kept(hub.agents, gone, i);
        let j = choose|j: int| 0 <= j < after.agents.len() && after.agents[j] == hub.agents[i];
        assert(after.agents[j].token == token);
        lemma_agent_at(after, j);
    } else if after.agent(token) is Some {
        let j = choose|j: int|
            0 <= j < after.agents.len() && (#[trigger] after.agents[j]).token == token;
        let i = choose|i: int| 0 <= i < hub.agents.len() && hub.agents[i] == after.agents[j];
        assert(hub.agents[i].token == token);
    }
}

/// An agent with another token is kept.
proof fn lemma_kept(agents: Seq<PeerView>, gone: Seq<char>, i: int)
    requires
        0 <= i < agents.len(),
        agents[i].token != gone,
    ensures
        without_token(agents, gone).contains(agents[i]),
    decreases agents.len(),
{
    let front = agents.drop_last();
    let rest = without_token(front, gone);
    let all = without_token(agents, gone);
    if i == agents.len() - 1 {
        assert(all[rest.len() as int] == agents[i]);
    } else {
        assert(front[i] == agents[i]);
        lemma_kept(front, gone, i);
        let k = choose|k: int| 0 <= k < rest.len() && rest[k] == agents[i];
        assert(all[k] == rest[k]);
    }
}

/// Once an agent has left, its bridges' requests are answered at once: the
/// agent is offline.
pub proof fn lemma_requests_fail_fast_without_agent(
    hub: HubView,
    agent: PeerView,
    bridge: PeerView,
    frame: JsonView,
)
    requires
        hub.inv(),
        agent.kind == PeerKind::Agent,
        bridge.kind == PeerKind::Bridge,
        bridge.token == agent.token,
        member(frame, "id"@) is Some,
        member(frame, "method"@) is Some,
        as_text(member(frame, "method"@)) != Some(method::LIST_TARGETS@),
    ensures
        hub.left(agent).routed(bridge, frame) == seq![
            DeliveryView {
                to: bridge.handle,
                text: json_text(
                    error_frame(
                        request_id(frame),
                        code::AGENT_OFFLINE,
                        "agent is not connected"@,
                    ),
                ),
            },
        ],
{
    lemma_without_token(hub.agents, agent.token);
    let after = hub.left(agent);
    if after.agent(bridge.token) is Some {
        let i = choose|i: int|
            0 <= i < after.agents.len() && (#[trigger] after.agents[i]).token == bridge.token;
        assert(without_token(hub.agents, agent.token)[i].token != agent.token);
    }
}

/// A bridge that has left is sent nothing of its pair any more.
pub proof fn lemma_gone_bridge_is_sent_nothing(
    hub: HubView,
    bridge: PeerView,
    agent: PeerView,
    frame: JsonView,
)
    requires
        hub.inv(),
        bridge.kind == PeerKind::Bridge,
        agent.kind == PeerKind::Agent,
    ensures
        forall|k: int|
            0 <= k < hub.left(bridge).routed(agent, frame).len() ==> (#[trigger] hub.left(
                bridge,
            ).routed(agent, frame)[k]).to != bridge.handle,
{
    let after = hub.left(bridge);
    lemma_without_handle(hub.bridges, bridge.handle);
    lemma_to_bridges(after.bridges, agent.token, json_text(frame));
    assert forall|k: int| 0 <= k < after.routed(agent, frame).len() implies (
    #[trigger] after.routed(agent, frame)[k]).to != bridge.handle by {
        let out = to_bridges(after.bridges, agent.token, json_text(frame));
        assert(after.routed(agent, frame)[k] == out[k]);
        let i = choose|i: int|
            0 <= i < after.bridges.len() && (#[trigger] after.bridges[i]).token == agent.token
                && after.bridges[i].handle == out[k].to;
        assert(without_handle(hub.bridges, bridge.handle)[i].handle != bridge.handle);
    }
}

/// What an agent sends: an answer, or an event, goes to each bridge of the pair as
/// it came, and nowhere else; anything else goes nowhere.
pub proof fn lemma_frames_of_an_agent(hub: HubView, agent: PeerView, frame: JsonView)
    requires
        agent.kind == PeerKind::Agent,
    ensures
        (member(frame, "id"@) is Some) == (member(frame, "method"@) is Some) ==> hub.routed(
            agent,
            frame,
        ).len() == 0,
        (member(frame, "id"@) is Some) != (member(frame, "method"@) is Some) ==> {
            &&& forall|i: int|
                0 <= i < hub.bridges.len() && (#[trigger] hub.bridges[i]).token == agent.token
                    ==> hub.routed(agent, frame).contains(
                    DeliveryView { to: hub.bridges[i].handle, text: json_text(frame) },
                )
            &&& forall|k: int|
                0 <= k < hub.routed(agent, frame).len() ==> (#[trigger] hub.routed(
                    agent,
                    frame,
                )[k]).text == json_text(frame) && exists|i: int|
                    0 <= i < hub.bridges.len() && (#[trigger] hub.bridges[i]).token == agent.token
                        && hub.bridges[i].handle == hub.routed(agent, frame)[k].to
        },
{
    lemma_to_bridges(hub.bridges, agent.token, json_text(frame));
}

/// What a bridge sends: an answer goes nowhere, an event goes to the agent as it
/// came, where there is one. A request is answered by the relay where it asks for
/// the targets, with every connected agent; it goes to the agent as it came; and
/// where no agent is there it is answered at once with an error.
pub proof fn lemma_frames_of_a_bridge(hub: HubView, bridge: PeerView, frame: JsonView)
    requires
        bridge.kind == PeerKind::Bridge,
    ensures
        ({
            let sent = hub.routed(bridge, frame);
            let passed_on = seq![
                DeliveryView {
                    to: hub.agent(bridge.token)->0.handle,
                    text: json_text(frame),
                },
            ];
            let has_id = member(frame, "id"@) is Some;
            let has_method = member(frame, "method"@) is Some;
            let id = match as_unsigned(member(frame, "id"@)) {
                Some(id) => id,
                None => 0,
            };
            let lists = as_text(member(frame, "method"@)) == Some("list_targets"@);
            let there = hub.agent(bridge.token) is Some;
            let targets = Seq::new(
                hub.agents.len(),
                |i: int|
                    JsonView::Object(
                        map![
                            "id"@ => JsonView::Text(hub.agents[i].id),
                            "name"@ => JsonView::Text(hub.agents[i].name),
                            "session"@ => JsonView::Text(hub.agents[i].session),
                        ],
                    ),
            );
            &&& has_id && !has_method ==> sent.len() == 0
            &&& !has_id && has_method && there ==> sent == passed_on
            &&& !has_id && has_method && !there ==> sent.len() == 0
            &&& has_id == has_method && lists ==> sent == seq![
                DeliveryView {
                    to: bridge.handle,
                    text: json_text(
                        JsonView::Object(
                            map![
                                "jsonrpc"@ => JsonView::Text("2.0"@),
                                "id"@ => crate::json::unsigned(id),
                                "result"@ => JsonView::Object(
                                    map!["targets"@ => JsonView::Array(targets)],
                                ),
                            ],
                        ),
                    ),
                },
            ]
            &&& has_id == has_method && !lists && there ==> sent == passed_on
            &&& has_id == has_method && !lists && !there ==> sent == seq![
                DeliveryView {
                    to: bridge.handle,
                    text: json_text(
                        JsonView::Object(
                            map![
                                "jsonrpc"@ => JsonView::Text("2.0"@),
                                "id"@ => crate::json::unsigned(id),
                                "error"@ => JsonView::Object(
                                    map![
                                        "code"@ => crate::json::signed(-32000i64),
                                        "message"@ => JsonView::Text("agent is not connected"@),
                                    ],
                                ),
                            ],
                        ),
                    ),
                },
            ]
        }),
{
    let targets = Seq::new(
        hub.agents.len(),
        |i: int|
            JsonView::Object(
                map![
                    "id"@ => JsonView::Text(hub.agents[i].id),
                    "name"@ => JsonView::Text(hub.agents[i].name),
                    "session"@ => JsonView::Text(hub.agents[i].session),
                ],
            ),
    );
    assert(hub.agents.map_values(|p: PeerView| target_view(p)) =~= targets);
}

/// What is said when a peer comes: every bridge of the pair is told of an agent,
/// by its id and its name, and the peer is told its session, a bridge also the id
/// of its agent where that is there.
pub proof fn lemma_a_peer_is_greeted(hub: HubView, peer: PeerView)
    ensures
        ({
            let sent = hub.greeting(peer);
            let news = json_text(
                JsonView::Object(
                    map![
                        "jsonrpc"@ => JsonView::Text("2.0"@),
                        "method"@ => JsonView::Text("agent_connected"@),
                        "params"@ => JsonView::Object(
                            map![
                                "agent_id"@ => JsonView::Text(peer.id),
                                "name"@ => JsonView::Text(peer.name),
                            ],
                        ),
                    ],
                ),
            );
            let session = map!["session"@ => JsonView::Text(peer.session)];
            let greeted = if peer.kind == PeerKind::Bridge && hub.agent(peer.token) is Some {
                session.insert("agent_id"@, JsonView::Text(hub.agent(peer.token)->0.id))
            } else {
                session
            };
            &&& sent.len() > 0
            &&& sent.last() == (DeliveryView {
                to: peer.handle,
                text: json_text(
                    JsonView::Object(
                        map![
                            "jsonrpc"@ => JsonView::Text("2.0"@),
                            "method"@ => JsonView::Text("hello_ack"@),
                            "params"@ => JsonView::Object(greeted),
                        ],
                    ),
                ),
            })
            &&& peer.kind == PeerKind::Bridge ==> sent.len() == 1
            &&& peer.kind == PeerKind::Agent ==> forall|i: int|
                0 <= i < hub.bridges.len() && (#[trigger] hub.bridges[i]).token == peer.token
                    ==> sent.drop_last().contains(
                    DeliveryView { to: hub.bridges[i].handle, text: news },
                )
            &&& forall|k: int|
                0 <= k < sent.len() - 1 ==> (#[trigger] sent[k]).text == news && exists|i: int|
                    0 <= i < hub.bridges.len() && (#[trigger] hub.bridges[i]).token == peer.token
                        && hub.bridges[i].handle == sent[k].to
        }),
{
    let news = json_text(agent_connected_frame(peer.id, peer.name));
    lemma_to_bridges(hub.bridges, peer.token, news);
    let told = to_bridges(hub.bridges, peer.token, news);
    let sent = hub.greeting(peer);
    if peer.kind == PeerKind::Agent {
        assert(sent.drop_last() =~= told);
        assert forall|k: int| 0 <= k < sent.len() - 1 implies #[trigger] sent[k] == told[k] by {}
    }
}

/// What is said when a peer goes: every bridge of the pair is told that its agent
/// is gone, and nobody is told of a bridge.
pub proof fn lemma_bridges_are_told_that_the_agent_is_gone(hub: HubView, peer: PeerView)
    ensures
        ({
            let sent = hub.farewell(peer);
            let news = json_text(
                JsonView::Object(
                    map![
                        "jsonrpc"@ => JsonView::Text("2.0"@),
                        "method"@ => JsonView::Text("agent_disconnected"@),
                        "params"@ => JsonView::Object(
                            map!["agent_id"@ => JsonView::Text(peer.id)],
                        ),
                    ],
                ),
            );
            &&& peer.kind == PeerKind::Bridge ==> sent.len() == 0
            &&& peer.kind == PeerKind::Agent ==> forall|i: int|
                0 <= i < hub.bridges.len() && (#[trigger] hub.bridges[i]).token == peer.token
                    ==> sent.contains(DeliveryView { to: hub.bridges[i].handle, text: news })
            &&& forall|k: int|
                0 <= k < sent.len() ==> (#[trigger] sent[k]).text == news && exists|i: int|
                    0 <= i < hub.bridges.len() && (#[trigger] hub.bridges[i]).token == peer.token
                        && hub.bridges[i].handle == sent[k].to
        }),
{
    lemma_to_bridges(hub.bridges, peer.token, json_text(agent_gone_frame(peer.id)));
}

/// A bridge with another connection is kept.
proof fn lemma_bridge_kept(bridges: Seq<PeerView>, handle: u64, i: int)
    requires
        0 <= i < bridges.len(),
        bridges[i].handle != handle,
    ensures
        without_handle(bridges, handle).contains(bridges[i]),
    decreases bridges.len(),
{
    let front = bridges.drop_last();
    let rest = without_handle(front, handle);
    let all = without_handle(bridges, handle);
    if i == bridges.len() - 1 {
        assert(all[rest.len() as int] == bridges[i]);
    } else {
        assert(front[i] == bridges[i]);
        lemma_bridge_kept(front, handle, i);
        let k = choose|k: int| 0 <= k < rest.len() && rest[k] == bridges[i];
        assert(all[k] == rest[k]);
    }
}

/// Who is connected: a peer that has joined is, with all who were, except that an
/// agent takes the place of the one with its token; a peer that has left is not,
/// with all others who were, except that with an agent the one with its token
/// leaves. Whom the relay lets in does not change.
pub proof fn lemma_peers_come_and_go(hub: HubView, peer: PeerView, other: PeerView)
    requires
        hub.next < u64::MAX,
    ensures
        hub.joined(peer).holds(peer),
        hub.joined(peer).next == hub.next + 1,
        hub.joined(peer).required_token == hub.required_token,
        hub.left(peer).required_token == hub.required_token,
        hub.left(peer).next == hub.next,
        other != peer ==> {
            &&& hub.joined(peer).bridges.contains(other) <==> hub.bridges.contains(other)
            &&& hub.joined(peer).agents.contains(other) <==> hub.agents.contains(other) && !(
            peer.kind == PeerKind::Agent && other.token == peer.token)
        },
        hub.left(peer).bridges.contains(other) <==> hub.bridges.contains(other) && !(peer.kind
            == PeerKind::Bridge && other.handle == peer.handle),
        hub.left(peer).agents.contains(other) <==> hub.agents.contains(other) && !(peer.kind
            == PeerKind::Agent && other.token == peer.token),
{
    let joined = hub.joined(peer);
    let rest = without_token(hub.agents, peer.token);
    let others = without_handle(hub.bridges, peer.handle);
    lemma_without_token(hub.agents, peer.token);
    lemma_without_handle(hub.bridges, peer.handle);
    if hub.agents.contains(other) && other.token != peer.token {
        let i = choose|i: int| 0 <= i < hub.agents.len() && hub.agents[i] == other;
        lemma_kept(hub.agents, peer.token, i);
    }
    if hub.bridges.contains(other) && other.handle != peer.handle {
        let i = choose|i: int| 0 <= i < hub.bridges.len() && hub.bridges[i] == other;
        lemma_bridge_kept(hub.bridges, peer.handle, i);
    }
    assert(rest.contains(other) <==> hub.agents.contains(other) && other.token != peer.token) by {
        if rest.contains(other) {
            let k = choose|k: int| 0 <= k < rest.len() && rest[k] == other;
            assert(rest[k].token != peer.token);
        }
    }
    assert(others.contains(other) <==> hub.bridges.contains(other) && other.handle
        != peer.handle) by {
        if others.contains(other) {
            let k = choose|k: int| 0 <= k < others.len() && others[k] == other;
            assert(others[k].handle != peer.handle);
        }
    }
    if peer.kind == PeerKind::Agent {
        assert(joined.agents[rest.len() as int] == peer);
        if other != peer {
            lemma_pushed(rest, peer, other);
        }
    } else {
        assert(joined.bridges[hub.bridges.len() as int] == peer);
        if other != peer {
            lemma_pushed(hub.bridges, peer, other);
        }
    }
}

/// One more peer is the only one more.
proof fn lemma_pushed(peers: Seq<PeerView>, peer: PeerView, other: PeerView)
    requires
        other != peer,
    ensures
        peers.push(peer).contains(other) <==> peers.contains(other),
{
    let all = peers.push(peer);
    if all.contains(other) {
        let k = choose|k: int| 0 <= k < all.len() && all[k] == other;
        assert(peers[k] == other);
    }
    if peers.contains(other) {
        let k = choose|k: int| 0 <= k < peers.len() && peers[k] == other;
        assert(all[k] == other);
    }
}

/// Each frame is what it was built as: a request is neither an answer nor an
/// event, an answer is only an answer and an event only an event.
pub proof fn lemma_frames_are_told_apart(
    id: u64,
    name: Seq<char>,
    params: JsonView,
    result: Option<JsonView>,
    error: Option<JsonView>,
)
    ensures
        !is_response(request_frame(id, name, params)),
        !is_notification(request_frame(id, name, params)),
        request_id(request_frame(id, name, params)) == id,
        is_response(response_frame(id, result, error)),
        !is_notification(response_frame(id, result, error)),
        is_notification(notification_frame(name, params)),
        !is_response(notification_frame(name, params)),
{
    reveal_strlit("jsonrpc");
    reveal_strlit("id");
    reveal_strlit("method");
    reveal_strlit("params");
    reveal_strlit("result");
    reveal_strlit("error");
    assert("jsonrpc"@.len() == 7 && "id"@.len() == 2 && "method"@.len() == 6 && "params"@.len()
        == 6 && "result"@.len() == 6 && "error"@.len() == 5);
    assert("method"@[0] == 'm' && "params"@[0] == 'p' && "result"@[0] == 'r');
}

} // verus!
