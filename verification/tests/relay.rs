use relayfs::protocol::{code, Hello, PeerKind};
use relayfs::relay::{AppState, Delivery, RelayPeer};
use relayfs::rpc::{notification_value, request_value, response_value};
use serde_json::Value;

const TOKEN: &str = "test-token";

fn hello(kind: PeerKind, id: &str, name: &str, token: Option<&str>) -> Hello {
    Hello {
        kind,
        id: id.to_string(),
        name: name.to_string(),
        token: token.map(|t| t.to_string()),
    }
}

fn object(members: &[(&str, Value)]) -> Value {
    let mut map = serde_json::Map::new();
    for (k, v) in members {
        map.insert(k.to_string(), v.clone());
    }
    Value::Object(map)
}

fn hub() -> AppState {
    AppState::new(Some(TOKEN.to_string()))
}

fn join(hub: &mut AppState, kind: PeerKind, id: &str) -> (RelayPeer, Vec<Delivery>) {
    hub.connect(&hello(kind, id, id, Some(TOKEN)), 5).unwrap()
}

fn json(d: &Delivery) -> Value {
    serde_json::from_str(&d.text).unwrap()
}

#[test]
fn pairs_agent_and_bridge_and_routes_requests() {
    let mut hub = hub();

    // Agent connects first.
    let (agent, sent) = hub
        .accept(&hello(PeerKind::Agent, "test-agent", "agent", Some(TOKEN)))
        .unwrap();
    assert_eq!(sent.len(), 1);
    assert_eq!(sent[0].to, agent.handle);
    let ack = json(&sent[0]);
    assert_eq!(ack["method"], "hello_ack");
    assert!(!ack["params"]["session"].as_str().unwrap().is_empty());

    // Bridge connects; its ack must carry the agent id.
    let (bridge, sent) = hub
        .accept(&hello(PeerKind::Bridge, "test-bridge", "bridge", Some(TOKEN)))
        .unwrap();
    assert_eq!(json(&sent[0])["params"]["agent_id"], "test-agent");

    // Bridge sends a request; the agent must receive it verbatim.
    let request = request_value(42, "ping", object(&[]));
    let reaction = hub.receive(&bridge, &request);
    assert_eq!(reaction.send.len(), 1);
    assert_eq!(reaction.send[0].to, agent.handle);
    assert_eq!(reaction.answer_failure, Some(42));
    let received = json(&reaction.send[0]);
    assert_eq!(received["id"], 42);
    assert_eq!(received["method"], "ping");

    // Agent answers; the bridge must receive the response.
    let response = response_value(42, Some(object(&[("ok", Value::from(true))])), None);
    let reaction = hub.receive(&agent, &response);
    assert_eq!(reaction.send.len(), 1);
    assert_eq!(reaction.send[0].to, bridge.handle);
    let received = json(&reaction.send[0]);
    assert_eq!(received["id"], 42);
    assert_eq!(received["result"]["ok"], true);
}

#[test]
fn rejects_wrong_token() {
    let mut hub = hub();
    assert!(hub
        .accept(&hello(PeerKind::Agent, "bad-agent", "agent", Some("wrong-token")))
        .is_none());
    assert!(hub.accept(&hello(PeerKind::Agent, "bad-agent", "agent", None)).is_none());
    assert!(hub.accept(&hello(PeerKind::Agent, "bad-agent", "agent", Some(""))).is_none());

    // Where no token is required, any that is not empty will do.
    let mut open = AppState::new(None);
    assert!(open.accept(&hello(PeerKind::Agent, "a", "agent", Some(""))).is_none());
    assert!(open.accept(&hello(PeerKind::Agent, "a", "agent", Some("x"))).is_some());
}

#[test]
fn answers_agent_offline_when_no_agent() {
    let mut hub = hub();
    let (bridge, sent) = hub
        .accept(&hello(PeerKind::Bridge, "lonely-bridge", "bridge", Some(TOKEN)))
        .unwrap();
    assert!(json(&sent[0])["params"].get("agent_id").is_none());
    let reaction = hub.receive(&bridge, &request_value(7, "ping", object(&[])));
    assert_eq!(reaction.send.len(), 1);
    assert_eq!(reaction.send[0].to, bridge.handle);
    assert_eq!(reaction.answer_failure, None);
    let response = json(&reaction.send[0]);
    assert_eq!(response["id"], 7);
    assert_eq!(response["error"]["code"], code::AGENT_OFFLINE);
    assert_eq!(response["error"]["message"], "agent is not connected");
}

#[test]
fn a_session_is_the_id_and_a_number() {
    let mut hub = hub();
    assert!(hub.has_room());
    let (agent, _) = join(&mut hub, PeerKind::Agent, "a1");
    assert_eq!(agent.session, "a1-5");
    assert_eq!(hub.admitted_token(&hello(PeerKind::Agent, "x", "x", Some(TOKEN))).unwrap(), TOKEN);
}

#[test]
fn random_sessions_differ() {
    let mut hub = hub();
    let mut sessions: Vec<String> = Vec::new();
    for _ in 0..8 {
        let (bridge, _) = hub.accept(&hello(PeerKind::Bridge, "b", "b", Some(TOKEN))).unwrap();
        sessions.push(bridge.session);
    }
    sessions.sort();
    sessions.dedup();
    assert!(sessions.len() > 1);
}

#[test]
fn bridges_hear_of_their_agent() {
    let mut hub = hub();
    let (b1, _) = join(&mut hub, PeerKind::Bridge, "b1");
    let (b2, _) = join(&mut hub, PeerKind::Bridge, "b2");
    let (agent, sent) = join(&mut hub, PeerKind::Agent, "a1");
    assert_eq!(sent.iter().map(|d| d.to).collect::<Vec<_>>(), vec![b1.handle, b2.handle, agent.handle]);
    assert_eq!(json(&sent[0])["method"], "agent_connected");
    assert_eq!(json(&sent[0])["params"]["agent_id"], "a1");
    assert_eq!(json(&sent[0])["params"]["name"], "a1");

    let gone = hub.disconnect(&agent);
    assert_eq!(gone.iter().map(|d| d.to).collect::<Vec<_>>(), vec![b1.handle, b2.handle]);
    assert_eq!(json(&gone[1])["method"], "agent_disconnected");
    assert_eq!(json(&gone[1])["params"]["agent_id"], "a1");

    // From now on requests fail fast.
    let reaction = hub.receive(&b1, &request_value(9, "stat", object(&[])));
    assert_eq!(json(&reaction.send[0])["error"]["code"], code::AGENT_OFFLINE);
}

#[test]
fn frames_stay_within_the_pair() {
    let mut hub = AppState::new(None);
    let (agent, _) = hub.connect(&hello(PeerKind::Agent, "a", "a", Some("one")), 1).unwrap();
    let (near, _) = hub.connect(&hello(PeerKind::Bridge, "b", "b", Some("one")), 2).unwrap();
    let (far, sent) = hub.connect(&hello(PeerKind::Bridge, "c", "c", Some("two")), 3).unwrap();
    assert!(json(&sent[0])["params"].get("agent_id").is_none());
    let event = notification_value("command_output", object(&[]));
    let reaction = hub.receive(&agent, &event);
    assert_eq!(reaction.send.len(), 1);
    assert_eq!(reaction.send[0].to, near.handle);
    let reaction = hub.receive(&far, &request_value(1, "ping", object(&[])));
    assert_eq!(reaction.send[0].to, far.handle);
}

#[test]
fn a_newer_agent_takes_the_place_of_the_old() {
    let mut hub = hub();
    let (_old, _) = join(&mut hub, PeerKind::Agent, "old");
    let (new, _) = join(&mut hub, PeerKind::Agent, "new");
    let (bridge, sent) = join(&mut hub, PeerKind::Bridge, "b");
    assert_eq!(json(&sent[0])["params"]["agent_id"], "new");
    let reaction = hub.receive(&bridge, &request_value(3, "ping", object(&[])));
    assert_eq!(reaction.send[0].to, new.handle);
}

#[test]
fn the_relay_lists_the_targets_itself() {
    let mut hub = AppState::new(None);
    let (a, _) = hub.connect(&hello(PeerKind::Agent, "a", "alpha", Some("one")), 1).unwrap();
    let (_b, _) = hub.connect(&hello(PeerKind::Agent, "b", "beta", Some("two")), 2).unwrap();
    let (bridge, _) = hub.connect(&hello(PeerKind::Bridge, "c", "c", Some("one")), 3).unwrap();
    let reaction = hub.receive(&bridge, &request_value(11, "list_targets", object(&[])));
    assert_eq!(reaction.send.len(), 1);
    assert_eq!(reaction.send[0].to, bridge.handle);
    let answer = json(&reaction.send[0]);
    assert_eq!(answer["id"], 11);
    let targets = answer["result"]["targets"].as_array().unwrap();
    assert_eq!(targets.len(), 2);
    assert_eq!(targets[0]["id"], "a");
    assert_eq!(targets[0]["name"], "alpha");
    assert_eq!(targets[0]["session"], a.session.as_str());
    assert_eq!(targets[1]["id"], "b");
}

#[test]
fn answers_of_a_bridge_are_ignored() {
    let mut hub = hub();
    let (agent, _) = join(&mut hub, PeerKind::Agent, "a");
    let (bridge, _) = join(&mut hub, PeerKind::Bridge, "b");
    assert!(hub.receive(&bridge, &response_value(1, None, None)).send.is_empty());
    // Events of a bridge go to the agent.
    let reaction = hub.receive(&bridge, &notification_value("hint", object(&[])));
    assert_eq!(reaction.send[0].to, agent.handle);
    // A request of an agent goes nowhere.
    assert!(hub.receive(&agent, &request_value(1, "ping", object(&[]))).send.is_empty());
}

#[test]
fn a_failed_forward_is_reported() {
    let mut hub = hub();
    let (bridge, _) = join(&mut hub, PeerKind::Bridge, "b");
    let d = AppState::forward_failed(&bridge, 4, "broken pipe");
    assert_eq!(d.to, bridge.handle);
    let v = json(&d);
    assert_eq!(v["id"], 4);
    assert_eq!(v["error"]["code"], code::INTERNAL_ERROR);
    assert_eq!(v["error"]["message"], "agent forward failed: broken pipe");
}

#[test]
fn a_bridge_that_left_is_sent_nothing() {
    let mut hub = hub();
    let (agent, _) = join(&mut hub, PeerKind::Agent, "a");
    let (b1, _) = join(&mut hub, PeerKind::Bridge, "b1");
    let (b2, _) = join(&mut hub, PeerKind::Bridge, "b2");
    assert!(hub.disconnect(&b1).is_empty());
    let reaction = hub.receive(&agent, &response_value(1, Some(object(&[])), None));
    assert_eq!(reaction.send.len(), 1);
    assert_eq!(reaction.send[0].to, b2.handle);
}

#[test]
fn a_request_without_a_number_is_answered_under_zero() {
    let mut hub = hub();
    let (bridge, _) = join(&mut hub, PeerKind::Bridge, "b");
    let odd = object(&[("id", Value::from("x")), ("method", Value::from("ping"))]);
    let reaction = hub.receive(&bridge, &odd);
    assert_eq!(json(&reaction.send[0])["id"], 0);
}
