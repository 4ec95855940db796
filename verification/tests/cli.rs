use relayfs::cli::{local_url, mode_of, separate_http, split_mode, Mode};
use relayfs::skill::SKILL;

fn args(list: &[&str]) -> Vec<String> {
    list.iter().map(|s| s.to_string()).collect()
}

#[test]
fn the_mode_is_split_off() {
    let (mode, rest) = split_mode(&args(&["relayfs", "--mode", "target", "--token", "x"]));
    assert_eq!(mode, Some(Mode::Target));
    assert_eq!(rest, args(&["relayfs", "--token", "x"]));
    let (mode, rest) = split_mode(&args(&["relayfs", "--listen", "a", "--mode=server"]));
    assert_eq!(mode, Some(Mode::Server));
    assert_eq!(rest, args(&["relayfs", "--listen", "a"]));
}

#[test]
fn the_last_mode_counts() {
    let (mode, rest) = split_mode(&args(&["relayfs", "--mode=mcp", "--mode", "http"]));
    assert_eq!(mode, Some(Mode::Http));
    assert_eq!(rest, args(&["relayfs"]));
    let (mode, _) = split_mode(&args(&["relayfs", "--mode=mcp", "--mode", "nonsense"]));
    assert_eq!(mode, None);
}

#[test]
fn a_mode_without_a_value_is_left() {
    let (mode, rest) = split_mode(&args(&["relayfs", "--mode"]));
    assert_eq!(mode, None);
    assert_eq!(rest, args(&["relayfs", "--mode"]));
}

#[test]
fn other_arguments_are_left() {
    let given = args(&["relayfs", "skill", "--modes", "mode"]);
    let (mode, rest) = split_mode(&given);
    assert_eq!(mode, None);
    assert_eq!(rest, given);
    assert_eq!(mode_of("mcp"), Some(Mode::Mcp));
    assert_eq!(mode_of("MCP"), None);
}

#[test]
fn http_on_another_address_reaches_the_local_relay() {
    let (address, url) = separate_http("0.0.0.0:9000", Some("0.0.0.0:8788")).unwrap();
    assert_eq!(address, "0.0.0.0:8788");
    assert_eq!(url, "ws://127.0.0.1:9000");
    let (_, url) = separate_http("localhost", Some("x")).unwrap();
    assert_eq!(url, "ws://127.0.0.1:8787");
    let (_, url) = separate_http("[::1]:77", Some("x")).unwrap();
    assert_eq!(url, "ws://127.0.0.1:77");
    assert!(separate_http("a:1", Some("a:1")).is_none());
    assert!(separate_http("a:1", None).is_none());
    assert_eq!(local_url("4000"), "ws://127.0.0.1:4000");
}

#[test]
fn the_skill_document_names_the_tools() {
    assert!(SKILL.starts_with("# relayfs"));
    assert!(SKILL.contains("get_command_result"));
}
