use relayfs::protocol::{code, PeerKind, RpcError};
use relayfs::rpc::{
    error_value, malformed_error, notification_value, read_error, read_frame, relay_ws_url,
    request_value, response_value, send_frame, FrameRead, Peer, WireMessage,
};
use relayfs::socket::hello;

fn object(members: &[(&str, serde_json::Value)]) -> serde_json::Value {
    let mut map = serde_json::Map::new();
    for (k, v) in members {
        map.insert(k.to_string(), v.clone());
    }
    serde_json::Value::Object(map)
}

#[test]
fn relay_ws_url_appends_ws() {
    assert_eq!(relay_ws_url("ws://host:8787"), "ws://host:8787/ws");
    assert_eq!(
        relay_ws_url("wss://relay.example.com"),
        "wss://relay.example.com/ws"
    );
    assert_eq!(relay_ws_url("ws://host:8787/"), "ws://host:8787/ws");
}

#[test]
fn relay_ws_url_keeps_existing_ws_path() {
    assert_eq!(relay_ws_url("ws://host:8787/ws"), "ws://host:8787/ws");
    assert_eq!(relay_ws_url("ws://host:8787/ws/"), "ws://host:8787/ws");
}

#[test]
fn request_value_frames_correctly() {
    let v = request_value(7, "ping", object(&[]));
    assert_eq!(v["jsonrpc"], "2.0");
    assert_eq!(v["id"], 7);
    assert_eq!(v["method"], "ping");
    assert_eq!(v["params"], object(&[]));
}

#[test]
fn notification_value_has_no_id() {
    let v = notification_value(
        "command_output",
        object(&[("data", serde_json::Value::from("x"))]),
    );
    assert_eq!(v["jsonrpc"], "2.0");
    assert_eq!(v["method"], "command_output");
    assert!(v.get("id").is_none());
}

#[test]
fn response_value_round_trips_result_and_error() {
    let ok = response_value(1, Some(object(&[("ok", serde_json::Value::from(true))])), None);
    assert_eq!(ok["result"]["ok"], true);
    assert!(ok.get("error").is_none());

    let err = response_value(
        2,
        None,
        Some(RpcError::new(code::AGENT_OFFLINE, "agent is not connected")),
    );
    assert_eq!(err["error"]["code"], code::AGENT_OFFLINE);
    assert_eq!(err["error"]["message"], "agent is not connected");
    assert!(err.get("result").is_none());
}

fn peer() -> Peer {
    Peer::new(hello(PeerKind::Agent, "a1", "prod", "secret"), "a1-7".to_string())
}

#[test]
fn rpc_error_serializes_code_and_message() {
    let err = RpcError::new(code::METHOD_NOT_FOUND, "unknown method: foo");
    let json = error_value(err);
    assert_eq!(json["code"], code::METHOD_NOT_FOUND);
    assert_eq!(json["message"], "unknown method: foo");
}

#[test]
fn an_error_carries_its_data() {
    let json = error_value(RpcError::with_data(
        code::INVALID_PARAMS,
        "bad",
        object(&[("field", serde_json::Value::from("path"))]),
    ));
    assert_eq!(json["data"]["field"], "path");
    assert!(error_value(RpcError::new(code::CANCELLED, "x")).get("data").is_none());
}

#[test]
fn a_peer_frames_what_it_sends() {
    let p = peer();
    assert_eq!(p.session, "a1-7");
    assert_eq!(p.hello.name, "prod");
    assert_eq!(
        p.request(7, "ping", object(&[])),
        "{\"id\":7,\"jsonrpc\":\"2.0\",\"method\":\"ping\",\"params\":{}}"
    );
    assert_eq!(
        p.notify("tick", serde_json::Value::from(1)),
        "{\"jsonrpc\":\"2.0\",\"method\":\"tick\",\"params\":1}"
    );
    assert_eq!(
        p.respond(8, Some(serde_json::Value::from(true)), None),
        "{\"id\":8,\"jsonrpc\":\"2.0\",\"result\":true}"
    );
}

#[test]
fn a_request_waits_for_its_answer() {
    let ok = response_value(7, Some(object(&[("ok", serde_json::Value::from(true))])), None);
    assert_eq!(Peer::answered(7, &ok).unwrap().unwrap()["ok"], true);
    assert!(Peer::answered(8, &ok).is_none());
    assert!(Peer::answered(7, &notification_value("tick", object(&[]))).is_none());
    let empty = response_value(7, None, None);
    assert!(Peer::answered(7, &empty).unwrap().unwrap().is_null());
    let error = RpcError::with_data(code::INVALID_PARAMS, "bad", serde_json::Value::from("x"));
    let e = Peer::answered(7, &response_value(7, None, Some(error))).unwrap().unwrap_err();
    assert_eq!((e.code, e.message.as_str()), (code::INVALID_PARAMS, "bad"));
    assert_eq!(e.data.unwrap(), "x");
}

#[test]
fn a_request_that_is_not_sent_fails() {
    let e = Peer::send_failed("broken pipe");
    assert_eq!(e.code, code::INTERNAL_ERROR);
    assert_eq!(e.message, "send failed: broken pipe");
}

#[test]
fn errors_that_cannot_be_read_are_told() {
    let number = serde_json::Value::from(-1);
    let text = serde_json::Value::from("m");
    let e = read_error(&object(&[("code", number.clone()), ("message", text.clone())]));
    assert_eq!((e.code, e.message.as_str(), e.data.is_none()), (-1, "m", true));
    let null = object(&[
        ("code", number.clone()),
        ("message", text.clone()),
        ("data", serde_json::Value::Null),
    ]);
    assert!(read_error(&null).data.is_none());
    let listed = serde_json::Value::Array(vec![
        number.clone(),
        text.clone(),
        serde_json::Value::from("d"),
    ]);
    let e = read_error(&listed);
    assert_eq!((e.code, e.message.as_str()), (-1, "m"));
    assert_eq!(e.data.unwrap(), "d");
    for bad in [
        serde_json::Value::Array(vec![number.clone(), text.clone()]),
        object(&[("code", number)]),
        object(&[("message", text.clone())]),
        object(&[("code", text.clone()), ("message", text)]),
        serde_json::Value::Null,
    ] {
        let e = read_error(&bad);
        assert_eq!(e.code, code::INTERNAL_ERROR);
        assert_eq!(e.message, "malformed error response");
    }
    assert_eq!(malformed_error().message, "malformed error response");
}

#[test]
fn a_host_may_be_named_ws() {
    assert_eq!(relay_ws_url("ws://ws"), "ws://ws/ws");
    assert_eq!(relay_ws_url("ws://ws/"), "ws://ws/ws");
    assert_eq!(relay_ws_url("ws://ws/ws"), "ws://ws/ws");
    assert_eq!(relay_ws_url("wss://host/relay"), "wss://host/relay/ws");
    assert_eq!(relay_ws_url("wss://host/relay/ws//"), "wss://host/relay/ws");
    assert_eq!(relay_ws_url("host/ws"), "host/ws");
    assert_eq!(relay_ws_url("ws:"), "ws:/ws");
    assert_eq!(relay_ws_url(&relay_ws_url("ws://")), relay_ws_url("ws://"));
}

#[test]
fn frames_come_back_as_they_were_sent() {
    let sent = request_value(
        u64::MAX,
        "copy \u{e9}\"\n",
        object(&[("n", serde_json::Value::from(-5)), ("t", serde_json::Value::Null)]),
    );
    match read_frame(Some(WireMessage::Text(send_frame(&sent)))) {
        FrameRead::Frame(v) => assert_eq!(v, sent),
        other => panic!("unexpected {:?}", other),
    }
}

#[test]
fn what_is_no_frame_is_told_apart() {
    match read_frame(Some(WireMessage::Text("{".to_string()))) {
        FrameRead::Invalid(e) => assert!(e.starts_with("invalid JSON-RPC frame: EOF")),
        other => panic!("unexpected {:?}", other),
    }
    match read_frame(Some(WireMessage::Binary)) {
        FrameRead::Invalid(e) => assert_eq!(e, "binary frames are not supported"),
        other => panic!("unexpected {:?}", other),
    }
    assert!(matches!(read_frame(Some(WireMessage::Control)), FrameRead::Again));
    assert!(matches!(read_frame(Some(WireMessage::Close)), FrameRead::Closed));
    assert!(matches!(read_frame(None), FrameRead::Closed));
}
