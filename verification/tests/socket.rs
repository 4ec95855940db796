use relayfs::protocol::PeerKind;
use relayfs::socket::{hello, hello_text, on_message, read_ack, WsAction, WsMessage};

#[test]
fn a_hello_is_written_with_its_token() {
    let h = hello(PeerKind::Agent, "agent-1", "prod", "secret");
    assert_eq!(
        hello_text(&h),
        "{\"id\":\"agent-1\",\"kind\":\"agent\",\"name\":\"prod\",\"token\":\"secret\"}"
    );
}

#[test]
fn a_hello_without_a_token_has_none() {
    let mut h = hello(PeerKind::Bridge, "bridge-1", "local", "x");
    h.token = None;
    assert_eq!(
        hello_text(&h),
        "{\"id\":\"bridge-1\",\"kind\":\"bridge\",\"name\":\"local\"}"
    );
}

#[test]
fn the_handshake_waits_for_the_ack() {
    let ack = "{\"method\":\"hello_ack\",\"params\":{\"session\":\"s-1\"}}";
    let v = read_ack(ack).unwrap().unwrap();
    assert_eq!(v["params"]["session"], "s-1");
    assert!(read_ack("{\"method\":\"other\"}").unwrap().is_none());
    assert!(read_ack("3").unwrap().is_none());
    assert!(read_ack("{").is_err());
}

#[test]
fn messages_are_told_apart() {
    match on_message(WsMessage::Text("{\"id\":1}".to_string())) {
        WsAction::Handle(v) => assert_eq!(v["id"], 1),
        other => panic!("unexpected {:?}", other),
    }
    assert!(matches!(on_message(WsMessage::Text("no".to_string())), WsAction::Skip));
    match on_message(WsMessage::Ping(vec![1, 2])) {
        WsAction::Pong(p) => assert_eq!(p, vec![1, 2]),
        other => panic!("unexpected {:?}", other),
    }
    assert!(matches!(on_message(WsMessage::Close), WsAction::Stop));
    assert!(matches!(on_message(WsMessage::Failed), WsAction::Stop));
    assert!(matches!(on_message(WsMessage::Other), WsAction::Skip));
}
