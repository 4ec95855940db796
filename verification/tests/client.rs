use relayfs::bridge::client::{lost_error, AgentClient, Event, Reply};
use relayfs::protocol::{code, RpcError};
use relayfs::rpc::{notification_value, response_value};
use serde_json::Value;

fn object(members: &[(&str, Value)]) -> Value {
    let mut map = serde_json::Map::new();
    for (k, v) in members {
        map.insert(k.to_string(), v.clone());
    }
    Value::Object(map)
}

fn ack(agent: Option<&str>) -> Value {
    let mut params = vec![("session", Value::from("s"))];
    if let Some(id) = agent {
        params.push(("agent_id", Value::from(id)));
    }
    notification_value("hello_ack", object(&params))
}

#[test]
fn a_response_answers_its_request_once() {
    let mut client = AgentClient::connect(&ack(Some("a1")));
    assert_eq!(client.agent_id().as_deref(), Some("a1"));
    let (first, text) = client.call("ping", object(&[])).unwrap();
    assert_eq!(text, "{\"id\":1,\"jsonrpc\":\"2.0\",\"method\":\"ping\",\"params\":{}}");
    let (second, _) = client.call("stat", object(&[])).unwrap();
    assert_eq!((first, second), (1, 2));
    assert!(client.has_room());
    match client.receive(&response_value(2, Some(Value::from("two")), None)) {
        Event::Answered { id, reply: Reply::Result(v) } => {
            assert_eq!(id, 2);
            assert_eq!(v, "two");
        }
        other => panic!("unexpected {:?}", other),
    }
    assert!(matches!(
        client.receive(&response_value(2, Some(Value::from("two")), None)),
        Event::Other
    ));
    assert_eq!(client.closed(), vec![1]);
}

#[test]
fn a_request_has_one_outcome() {
    let mut client = AgentClient::connect(&ack(None));
    for _ in 0..3 {
        client.call("ping", object(&[])).unwrap();
    }
    let mut replies = vec![0; 4];
    for id in [2, 9, 2, 3, 3, 2] {
        if let Event::Answered { id, .. } = client.receive(&response_value(id, None, None)) {
            replies[id as usize] += 1;
        }
        client.receive(&notification_value("agent_disconnected", object(&[])));
    }
    for id in client.closed() {
        replies[id as usize] += 1;
    }
    assert_eq!(replies, vec![0, 1, 1, 1]);
    assert!(client.closed().is_empty());
}

#[test]
fn errors_reach_the_request() {
    let mut client = AgentClient::connect(&ack(None));
    assert_eq!(client.agent_id(), None);
    let (id, _) = client.call("ping", object(&[])).unwrap();
    let err = RpcError::new(code::AGENT_OFFLINE, "agent is not connected");
    match client.receive(&response_value(id, None, Some(err))) {
        Event::Answered { reply: Reply::Error(v), .. } => {
            assert_eq!(v["code"], code::AGENT_OFFLINE)
        }
        other => panic!("unexpected {:?}", other),
    }
    let (id, _) = client.call("ping", object(&[])).unwrap();
    match client.receive(&object(&[("id", Value::from(id))])) {
        Event::Answered { reply: Reply::Result(v), .. } => assert!(v.is_null()),
        other => panic!("unexpected {:?}", other),
    }
}

#[test]
fn an_offline_client_fails_fast() {
    let mut client = AgentClient::connect(&ack(Some("a1")));
    client.call("ping", object(&[])).unwrap();
    assert_eq!(client.closed(), vec![1]);
    let e = client.call("ping", object(&[])).unwrap_err();
    assert_eq!(e.code, code::AGENT_OFFLINE);
    assert_eq!(e.message, "relay connection offline (reconnecting)");
    client.reconnect(&ack(Some("a2")));
    assert_eq!(client.agent_id().as_deref(), Some("a2"));
    let (id, _) = client.call("ping", object(&[])).unwrap();
    assert_eq!(id, 2);
}

#[test]
fn requests_can_fail_in_three_ways() {
    let mut client = AgentClient::connect(&ack(None));
    let (id, _) = client.call("ping", object(&[])).unwrap();
    let e = client.send_failed(id, "broken pipe");
    assert_eq!((e.code, e.message.as_str()), (code::INTERNAL_ERROR, "send failed: broken pipe"));
    let (id, _) = client.call("ping", object(&[])).unwrap();
    let e = client.timed_out(id);
    assert_eq!((e.code, e.message.as_str()), (code::CANCELLED, "request timed out"));
    assert!(client.closed().is_empty());
    let e = lost_error();
    assert_eq!((e.code, e.message.as_str()), (code::AGENT_OFFLINE, "connection to agent lost"));
}

#[test]
fn news_of_the_agent_is_noted() {
    let mut client = AgentClient::connect(&ack(None));
    let up = notification_value("agent_connected", object(&[("agent_id", Value::from("a9"))]));
    assert!(matches!(client.receive(&up), Event::AgentConnected));
    assert_eq!(client.agent_id().as_deref(), Some("a9"));
    let down = notification_value("agent_disconnected", object(&[("agent_id", Value::from("a9"))]));
    assert!(matches!(client.receive(&down), Event::AgentDisconnected));
    assert_eq!(client.agent_id(), None);
    let odd = notification_value("agent_connected", object(&[]));
    assert!(matches!(client.receive(&odd), Event::Other));
}

#[test]
fn the_end_of_a_command_is_logged() {
    let mut client = AgentClient::connect(&ack(None));
    let done = notification_value(
        "command_finished",
        object(&[("exit_code", Value::from(3)), ("timed_out", Value::from(false))]),
    );
    match client.receive(&done) {
        Event::CommandFinished(text) => assert_eq!(text, "command finished: exit code 3"),
        other => panic!("unexpected {:?}", other),
    }
    let late = notification_value("command_finished", object(&[("timed_out", Value::from(true))]));
    match client.receive(&late) {
        Event::CommandFinished(text) => assert_eq!(text, "command finished: timed out"),
        other => panic!("unexpected {:?}", other),
    }
    assert!(matches!(client.receive(&notification_value("x", Value::Null)), Event::Other));
}
