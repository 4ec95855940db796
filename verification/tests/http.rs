use base64::Engine;
use relayfs::bridge::http::{
    cors_preflight_response, decode_percent, extract_token, oauth_authorization_server,
    oauth_protected_resource, parse_form, unauthorized_response, unescape, Access, AuthorizeForm,
    AuthorizeQuery, Credentials, HttpReply, HttpState, Submitted, TokenRequest, CODE_LIFETIME,
};
use serde_json::Value;

const TOKEN: &str = "test-token";

fn nobody<'a>() -> Credentials<'a> {
    Credentials { authorization: None, query: None, cookie: None }
}

fn query() -> AuthorizeQuery {
    AuthorizeQuery {
        client_id: None,
        redirect_uri: None,
        response_type: None,
        state: None,
        error: None,
    }
}

fn form(token: &str, uri: Option<&str>, state: Option<&str>) -> AuthorizeForm {
    AuthorizeForm {
        token: token.to_string(),
        redirect_uri: uri.map(|s| s.to_string()),
        state: state.map(|s| s.to_string()),
        response_type: None,
        client_id: None,
    }
}

fn request() -> TokenRequest {
    TokenRequest {
        grant_type: None,
        code: None,
        client_id: None,
        client_secret: None,
        password: None,
        token: None,
    }
}

fn body(r: &HttpReply) -> Value {
    serde_json::from_str(&r.body).unwrap()
}

fn header(r: &HttpReply, name: &str) -> String {
    r.headers.iter().find(|(k, _)| k == name).map(|(_, v)| v.clone()).unwrap_or_default()
}

fn location(s: Submitted) -> String {
    match s {
        Submitted::Redirect(url) => url,
        other => panic!("unexpected {:?}", other),
    }
}

#[test]
fn a_login_ends_with_an_access_token() {
    let mut state = HttpState::new(TOKEN.to_string());

    // The metadata points to the endpoints.
    let meta = oauth_protected_resource();
    assert_eq!(meta.status, 200);
    assert_eq!(body(&meta)["resource"], "/mcp");
    let meta = oauth_authorization_server();
    assert_eq!(meta.status, 200);
    assert_eq!(body(&meta)["authorization_endpoint"], "/oauth/authorize");
    assert_eq!(body(&meta)["token_endpoint"], "/oauth/token");
    assert_eq!(body(&meta)["response_types_supported"][1], "token");

    // The login page shows the form.
    let page = state.login_page(&query(), &nobody());
    assert!(page.contains("Remote MCP Authentication"));
    assert!(page.contains("form method=\"POST\" action=\"/oauth/authorize\""));
    assert!(page.contains("name=\"response_type\" value=\"code\""));

    // A wrong token leads back to it.
    let uri = Some("http://client.local/callback");
    let url = location(state.authorize_submit(&form("wrong-token", uri, Some("xyz123")), 0));
    assert_eq!(
        url,
        "/oauth/authorize?error=Invalid%20pairing%20token&redirect_uri=http://client.local/callback&state=xyz123"
    );

    // The right one gives a code.
    let url = location(state.authorize_submit(&form(TOKEN, uri, Some("xyz123")), 0));
    assert!(url.starts_with("http://client.local/callback?code="));
    assert!(url.contains("&state=xyz123"));
    let code = url.split("code=").nth(1).unwrap().split('&').next().unwrap().to_string();
    assert_eq!(code.len(), 32);

    // The code is exchanged for the token.
    let mut r = request();
    r.grant_type = Some("authorization_code".to_string());
    r.code = Some(code);
    let reply = state.token_endpoint(&r, None, 1000);
    assert_eq!(reply.status, 200);
    assert_eq!(body(&reply)["access_token"], TOKEN);
    assert_eq!(body(&reply)["token_type"], "Bearer");
    assert_eq!(body(&reply)["expires_in"], 86400);

    // But only once.
    let reply = state.token_endpoint(&r, None, 1001);
    assert_eq!(reply.status, 400);
    assert_eq!(body(&reply)["error"], "invalid_grant");

    // Client credentials.
    let mut r = request();
    r.grant_type = Some("client_credentials".to_string());
    r.client_secret = Some(TOKEN.to_string());
    assert_eq!(state.token_endpoint(&r, None, 0).status, 200);

    // Nobody is let in without the token.
    assert_eq!(state.auth_middleware(false, &nobody()), Access::Denied);
    let refused = unauthorized_response();
    assert_eq!(refused.status, 401);
    assert!(header(&refused, "www-authenticate").contains("Bearer realm=\"relayfs\""));
    assert!(refused.body.contains("unauthorized"));
    assert_eq!(header(&refused, "access-control-allow-origin"), "*");

    // With it, by header, query or cookie.
    for c in [
        Credentials { authorization: Some("Bearer test-token"), ..nobody() },
        Credentials { query: Some("a=b&token=test%2Dtoken"), ..nobody() },
        Credentials { cookie: Some("x=y; access_token=test-token"), ..nobody() },
    ] {
        assert_eq!(state.auth_middleware(false, &c), Access::Granted);
        assert!(state.login_page(&query(), &c).contains("Bearer test-token"));
    }
}

#[test]
fn a_code_expires() {
    let mut state = HttpState::new(TOKEN.to_string());
    let uri = Some("http://c/cb?x=1");
    let url = location(state.submit(&form(TOKEN, uri, None), 1, 2, 50));
    assert_eq!(url, "http://c/cb?x=1&code=00000000000000010000000000000002");
    let mut r = request();
    r.grant_type = Some("authorization_code".to_string());
    r.code = Some("00000000000000010000000000000002".to_string());
    assert_eq!(state.token_endpoint(&r, None, 50 + CODE_LIFETIME).status, 400);
    // An unknown code, or none, is refused as well.
    assert_eq!(state.token_endpoint(&r, None, 50).status, 400);
    r.code = None;
    assert_eq!(state.token_endpoint(&r, None, 50).status, 400);
}

#[test]
fn expired_codes_are_forgotten_and_others_kept() {
    let mut state = HttpState::new(TOKEN.to_string());
    state.submit(&form(TOKEN, Some("u"), None), 0, 1, 0);
    state.submit(&form(TOKEN, Some("u"), None), 0, 2, 100);
    state.drop_expired(CODE_LIFETIME);
    let mut r = request();
    r.grant_type = Some("authorization_code".to_string());
    r.code = Some("00000000000000000000000000000001".to_string());
    assert_eq!(state.token_endpoint(&r, None, 0).status, 400);
    r.code = Some("00000000000000000000000000000002".to_string());
    assert_eq!(state.token_endpoint(&r, None, CODE_LIFETIME).status, 200);
}

#[test]
fn random_codes_differ() {
    let mut state = HttpState::new(TOKEN.to_string());
    let a = location(state.authorize_submit(&form(TOKEN, Some("u"), None), 0));
    let b = location(state.authorize_submit(&form(TOKEN, Some("u"), None), 0));
    assert_ne!(a, b);
}

#[test]
fn a_direct_login_sets_a_cookie() {
    let mut state = HttpState::new(TOKEN.to_string());
    for uri in [None, Some("")] {
        match state.submit(&form(TOKEN, uri, None), 0, 0, 0) {
            Submitted::Page { html, cookie } => {
                assert!(html.contains("Login Successful"));
                assert!(html.contains("<code>test-token</code>"));
                assert_eq!(
                    cookie,
                    "access_token=test-token; Path=/; HttpOnly; SameSite=Lax; Max-Age=86400"
                );
            }
            other => panic!("unexpected {:?}", other),
        }
    }
}

#[test]
fn secrets_come_from_several_places() {
    let mut state = HttpState::new(TOKEN.to_string());
    let mut r = request();
    assert_eq!(state.token_endpoint(&r, None, 0).status, 400);
    assert_eq!(state.token_endpoint(&r, Some("Bearer  test-token "), 0).status, 200);
    assert_eq!(state.token_endpoint(&r, Some("Basic test-token"), 0).status, 400);
    r.token = Some(TOKEN.to_string());
    assert_eq!(state.token_endpoint(&r, None, 0).status, 200);
    r.password = Some("other".to_string());
    assert_eq!(state.token_endpoint(&r, None, 0).status, 400);
    r.client_secret = Some(TOKEN.to_string());
    assert_eq!(state.token_endpoint(&r, None, 0).status, 200);
}

#[test]
fn a_secret_may_come_by_basic_authorization() {
    let mut state = HttpState::new(TOKEN.to_string());
    let mut r = request();
    r.grant_type = Some("client_credentials".to_string());
    let basic = |pair: &[u8]| {
        let encoded = base64::engine::general_purpose::STANDARD.encode(pair);
        format!("Basic {encoded}")
    };
    let reply = state.token_endpoint(&r, Some(&basic(b"me:test-token")), 0);
    assert_eq!(reply.status, 200);
    assert_eq!(body(&reply)["access_token"], TOKEN);
    assert_eq!(state.token_endpoint(&r, Some(&basic(b":test-token")), 0).status, 200);
    assert_eq!(state.token_endpoint(&r, Some(&basic(b"me:other")), 0).status, 400);
    assert_eq!(state.token_endpoint(&r, Some(&basic(b"test-token")), 0).status, 400);
    assert_eq!(state.token_endpoint(&r, Some(&basic(b"\xff:test-token")), 0).status, 400);
    assert_eq!(state.token_endpoint(&r, Some("Basic %%"), 0).status, 400);
    // A token may hold a colon itself.
    let mut state = HttpState::new("a:b".to_string());
    assert_eq!(state.token_endpoint(&r, Some(&basic(b"me:a:b")), 0).status, 200);
    // A secret in the body comes first.
    r.client_secret = Some("other".to_string());
    assert_eq!(state.token_endpoint(&r, Some(&basic(b"me:a:b")), 0).status, 400);
}

#[test]
fn escaping_is_undone() {
    for text in ["", "a b+c%d", "gr\u{fc}n \u{1f600}", "plain"] {
        let upper: String = text.bytes().map(|b| format!("%{b:02X}")).collect();
        let lower: String = text.bytes().map(|b| format!("%{b:02x}")).collect();
        assert_eq!(decode_percent(&upper), text);
        assert_eq!(decode_percent(&lower), text);
    }
    // Each byte may be written in its own way.
    assert_eq!(decode_percent("gr\u{fc}n+%f0%9F%98%80%20a%2bb"), "gr\u{fc}n \u{1f600} a+b");
}

#[test]
fn without_a_token_everyone_is_let_in() {
    let mut state = HttpState::new(String::new());
    assert!(state.is_authed(&nobody()));
    assert_eq!(state.auth_middleware(false, &nobody()), Access::Granted);
    assert_eq!(state.token_endpoint(&request(), None, 0).status, 200);
    assert!(state.login_page(&query(), &nobody()).contains("(none required)"));
    assert_eq!(state.legacy_sse_handler(&nobody()).body, "event: endpoint\ndata: /mcp\n\n");
}

#[test]
fn preflight_requests_are_answered_first() {
    let state = HttpState::new(TOKEN.to_string());
    assert_eq!(state.auth_middleware(true, &nobody()), Access::Preflight);
    let r = cors_preflight_response();
    assert_eq!(r.status, 204);
    assert_eq!(header(&r, "access-control-allow-methods"), "GET, POST, DELETE, OPTIONS");
    assert!(r.body.is_empty());
}

#[test]
fn an_sse_stream_points_to_the_endpoint() {
    let state = HttpState::new(TOKEN.to_string());
    assert_eq!(state.legacy_sse_handler(&nobody()).status, 401);
    let c = Credentials { authorization: Some("Bearer test-token"), ..nobody() };
    let r = state.legacy_sse_handler(&c);
    assert_eq!(r.status, 200);
    assert_eq!(header(&r, "content-type"), "text/event-stream");
    assert_eq!(header(&r, "cache-control"), "no-cache");
    assert_eq!(r.body, "event: endpoint\ndata: /mcp?token=test-token\n\n");
}

#[test]
fn the_form_shows_what_it_was_given() {
    let state = HttpState::new(TOKEN.to_string());
    let mut q = query();
    q.error = Some("Oops".to_string());
    q.redirect_uri = Some("http://c/cb".to_string());
    q.state = Some("st".to_string());
    q.response_type = Some("token".to_string());
    q.client_id = Some("me".to_string());
    let page = state.login_page(&q, &nobody());
    assert!(page.contains("<div class=\"alert error\">Oops</div>"));
    assert!(page.contains("name=\"redirect_uri\" value=\"http://c/cb\""));
    assert!(page.contains("name=\"state\" value=\"st\""));
    assert!(page.contains("name=\"response_type\" value=\"token\""));
    assert!(page.contains("name=\"client_id\" value=\"me\""));
    assert!(!state.login_page(&query(), &nobody()).contains("alert error\">"));
}

#[test]
fn tokens_are_found_in_order() {
    let c = Credentials {
        authorization: Some("Bearer  one "),
        query: Some("token=two"),
        cookie: Some("token=three"),
    };
    assert_eq!(extract_token(&c).unwrap(), "one");
    let c = Credentials { authorization: Some("Bearer  "), ..c };
    assert_eq!(extract_token(&c).unwrap(), "two");
    let c = Credentials { query: Some("token=&access_token=t+%32&token=x"), ..c };
    assert_eq!(extract_token(&c).unwrap(), "t 2");
    let c = Credentials { query: Some("other=x&token"), ..c };
    assert_eq!(extract_token(&c).unwrap(), "three");
    let c = Credentials { cookie: Some("a=b; token= ;access_token= four "), ..c };
    assert_eq!(extract_token(&c).unwrap(), "four");
    let c = Credentials { authorization: Some("bearer x"), cookie: None, ..c };
    assert_eq!(extract_token(&c), None);
}

#[test]
fn escapes_are_decoded() {
    assert_eq!(decode_percent("a%20b+c"), "a b c");
    assert_eq!(decode_percent("%C3%A9"), "\u{e9}");
    assert_eq!(decode_percent("%FF"), "\u{fffd}");
    // What is no escape is dropped.
    assert_eq!(decode_percent("x%zzy"), "xy");
    assert_eq!(decode_percent("x%4"), "x");
    assert_eq!(decode_percent("x%"), "x");
    assert_eq!(unescape(b"%41%2b%+5"), vec![0x41, 0x2b, 0x05]);
}

#[test]
fn forms_are_read() {
    let r = parse_form("grant_type=password&password=a%26b&code=1&code=2&client_id=&x=y&token");
    assert_eq!(r.grant_type.as_deref(), Some("password"));
    assert_eq!(r.password.as_deref(), Some("a&b"));
    assert_eq!(r.code.as_deref(), Some("2"));
    assert_eq!(r.client_id.as_deref(), Some(""));
    assert_eq!(r.client_secret, None);
    assert_eq!(r.token, None);
    assert_eq!(parse_form("").code, None);
}
