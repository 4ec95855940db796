//! The pages of the login.

use vstd::prelude::*;

verus! {

/// The page for someone who is authorized, up to the token.
pub const AUTHORIZED_HEAD: &'static str = r#"<!DOCTYPE html>
<html lang="en">
<head>
  <meta charset="utf-8">
  <title>relayfs - Authorized</title>
  <style>
    body { font-family: -apple-system, BlinkMacSystemFont, "Segoe UI", Roboto, Helvetica, Arial, sans-serif; background: #0f1117; color: #e6edf3; display: flex; align-items: center; justify-content: center; height: 100vh; margin: 0; }
    .card { background: #161b22; border: 1px solid #30363d; border-radius: 8px; padding: 32px; width: 440px; box-shadow: 0 8px 24px rgba(0,0,0,0.5); }
    h2 { margin-top: 0; color: #58a6ff; font-size: 20px; }
    p { font-size: 14px; line-height: 1.5; color: #8b949e; }
    code { background: #21262d; padding: 3px 6px; border-radius: 4px; color: #79c0ff; font-family: ui-monospace, SFMono-Regular, monospace; word-break: break-all; }
    .btn { display: inline-block; background: #238636; color: #fff; padding: 10px 16px; border-radius: 6px; text-decoration: none; font-weight: 500; font-size: 14px; margin-top: 16px; }
    .btn:hover { background: #2ea043; }
  </style>
</head>
<body>
  <div class="card">
    <h2>✓ Authenticated with RelayFS</h2>
    <p>You are authenticated. Configure your AI client with:</p>
    <p><strong>Endpoint:</strong> <code>/mcp</code></p>
    <p><strong>Authorization Header:</strong> <code>Bearer "#;

/// The rest of that page.
pub const AUTHORIZED_TAIL: &'static str = r#"</code></p>
  </div>
</body>
</html>"#;

/// The login page, up to the message of an error.
pub const LOGIN_HEAD: &'static str = r#"<!DOCTYPE html>
<html lang="en">
<head>
  <meta charset="utf-8">
  <meta name="viewport" content="width=device-width, initial-scale=1">
  <title>relayfs - Remote MCP Login</title>
  <style>
    * { box-sizing: border-box; }
    body { font-family: -apple-system, BlinkMacSystemFont, "Segoe UI", Roboto, Helvetica, Arial, sans-serif; background: #0d1117; color: #c9d1d9; display: flex; align-items: center; justify-content: center; min-height: 100vh; margin: 0; padding: 16px; }
    .card { background: #161b22; border: 1px solid #30363d; border-radius: 10px; padding: 32px; width: 100%; max-width: 420px; box-shadow: 0 12px 28px rgba(0,0,0,0.6); }
    .logo { display: flex; align-items: center; gap: 10px; margin-bottom: 20px; }
    .logo-badge { background: #1f6feb; color: #fff; font-weight: 700; padding: 4px 10px; border-radius: 6px; font-size: 13px; }
    h1 { font-size: 18px; margin: 0; color: #f0f6fc; }
    p.desc { font-size: 13px; color: #8b949e; margin-top: 4px; margin-bottom: 20px; line-height: 1.4; }
    .alert.error { background: rgba(248,81,73,0.15); border: 1px solid #f85149; color: #ff7b72; padding: 10px 12px; border-radius: 6px; font-size: 13px; margin-bottom: 16px; }
    label { display: block; font-size: 12px; font-weight: 600; color: #8b949e; text-transform: uppercase; margin-bottom: 6px; }
    input[type="password"], input[type="text"] { width: 100%; padding: 10px 12px; background: #0d1117; border: 1px solid #30363d; border-radius: 6px; color: #c9d1d9; font-size: 14px; outline: none; margin-bottom: 18px; }
    input[type="password"]:focus { border-color: #58a6ff; box-shadow: 0 0 0 3px rgba(88,166,255,0.2); }
    button { width: 100%; background: #238636; color: #ffffff; border: none; padding: 10px 16px; font-size: 14px; font-weight: 600; border-radius: 6px; cursor: pointer; transition: background 0.15s; }
    button:hover { background: #2ea043; }
  </style>
</head>
<body>
  <div class="card">
    <div class="logo">
      <span class="logo-badge">relayfs</span>
      <h1>Remote MCP Authentication</h1>
    </div>
    <p class="desc">Enter your pairing token (<code>RELAYFS_TOKEN</code>) to authorize remote MCP tool execution.</p>
    "#;

/// The login page from there to the redirect URI.
pub const LOGIN_REDIRECT: &'static str = r#"
    <form method="POST" action="/oauth/authorize">
      <input type="hidden" name="redirect_uri" value=""#;

/// The login page from there to the state.
pub const LOGIN_STATE: &'static str = r#"">
      <input type="hidden" name="state" value=""#;

/// The login page from there to the response type.
pub const LOGIN_RESPONSE_TYPE: &'static str = r#"">
      <input type="hidden" name="response_type" value=""#;

/// The login page from there to the client id.
pub const LOGIN_CLIENT_ID: &'static str = r#"">
      <input type="hidden" name="client_id" value=""#;

/// The rest of the login page.
pub const LOGIN_TAIL: &'static str = r#"">
      <label for="token">Pairing Token</label>
      <input type="password" id="token" name="token" placeholder="••••••••••••" autofocus required>
      <button type="submit">Log in & Authorize</button>
    </form>
  </div>
</body>
</html>"#;

/// The page after a login, up to the token.
pub const SUCCESS_HEAD: &'static str = r#"<!DOCTYPE html>
<html lang="en">
<head>
  <meta charset="utf-8">
  <title>relayfs - Login Successful</title>
  <style>
    body { font-family: -apple-system, BlinkMacSystemFont, "Segoe UI", Roboto, Helvetica, Arial, sans-serif; background: #0d1117; color: #c9d1d9; display: flex; align-items: center; justify-content: center; height: 100vh; margin: 0; }
    .card { background: #161b22; border: 1px solid #30363d; border-radius: 10px; padding: 32px; width: 480px; box-shadow: 0 12px 28px rgba(0,0,0,0.6); }
    h2 { color: #3fb950; margin-top: 0; }
    code { background: #0d1117; padding: 4px 8px; border-radius: 4px; color: #58a6ff; font-family: monospace; word-break: break-all; }
    p { font-size: 14px; line-height: 1.5; color: #8b949e; }
  </style>
</head>
<body>
  <div class="card">
    <h2>✓ Login Successful</h2>
    <p>You have authorized this remote MCP server. You can now use the following configuration in your client:</p>
    <p><strong>URL:</strong> <code>http://&lt;this-host&gt;/mcp</code></p>
    <p><strong>Bearer Token:</strong> <code>"#;

/// The rest of that page.
pub const SUCCESS_TAIL: &'static str = r#"</code></p>
  </div>
</body>
</html>"#;

/// The message of an error, as it stands in the login page.
pub open spec fn error_box(message: Seq<char>) -> Seq<char> {
    if message.len() > 0 {
        "<div class=\"alert error\">"@ + message + "</div>"@
    } else {
        Seq::empty()
    }
}

/// The login page.
pub open spec fn login_html(
    error: Seq<char>,
    redirect_uri: Seq<char>,
    state: Seq<char>,
    response_type: Seq<char>,
    client_id: Seq<char>,
) -> Seq<char> {
    LOGIN_HEAD@ + error_box(error) + LOGIN_REDIRECT@ + redirect_uri + LOGIN_STATE@ + state
        + LOGIN_RESPONSE_TYPE@ + response_type + LOGIN_CLIENT_ID@ + client_id + LOGIN_TAIL@
}

/// The login page.
pub fn login_form(
    error: &str,
    redirect_uri: &str,
    state: &str,
    response_type: &str,
    client_id: &str,
) -> (res: String)
    ensures
        res@ == login_html(error@, redirect_uri@, state@, response_type@, client_id@),
        error@.len() == 0 ==> res@ == LOGIN_HEAD@ + LOGIN_REDIRECT@ + redirect_uri@ + LOGIN_STATE@
            + state@ + LOGIN_RESPONSE_TYPE@ + response_type@ + LOGIN_CLIENT_ID@ + client_id@
            + LOGIN_TAIL@,
        error@.len() > 0 ==> res@ == LOGIN_HEAD@ + "<div class=\"alert error\">"@ + error@
            + "</div>"@ + LOGIN_REDIRECT@ + redirect_uri@ + LOGIN_STATE@ + state@
            + LOGIN_RESPONSE_TYPE@ + response_type@ + LOGIN_CLIENT_ID@ + client_id@ + LOGIN_TAIL@,
{
    let mut page = LOGIN_HEAD.to_owned();
    let ghost head = page@;
    if !error.is_empty() {
        page.append("<div class=\"alert error\">");
        page.append(error);
        page.append("</div>");
    }
    assert(page@ =~= head + error_box(error@));
    assert(error@.len() == 0 ==> page@ =~= head);
    assert(error@.len() > 0 ==> page@ =~= head + "<div class=\"alert error\">"@ + error@
        + "</div>"@);
    page.append(LOGIN_REDIRECT);
    page.append(redirect_uri);
    page.append(LOGIN_STATE);
    page.append(state);
    page.append(LOGIN_RESPONSE_TYPE);
    page.append(response_type);
    page.append(LOGIN_CLIENT_ID);
    page.append(client_id);
    page.append(LOGIN_TAIL);
    page
}

/// The page for someone who is authorized: how to use the token, where one is
/// required.
pub open spec fn authorized_html(token: Seq<char>) -> Seq<char> {
    AUTHORIZED_HEAD@ + if token.len() == 0 {
        "(none required)"@
    } else {
        token
    } + AUTHORIZED_TAIL@
}

/// The page for someone who is authorized.
pub fn authorized_page(token: &str) -> (res: String)
    ensures
        res@ == authorized_html(token@),
        token@.len() == 0 ==> res@ == AUTHORIZED_HEAD@ + "(none required)"@ + AUTHORIZED_TAIL@,
        token@.len() > 0 ==> res@ == AUTHORIZED_HEAD@ + token@ + AUTHORIZED_TAIL@,
{
    let mut page = AUTHORIZED_HEAD.to_owned();
    if token.is_empty() {
        page.append("(none required)");
    } else {
        page.append(token);
    }
    page.append(AUTHORIZED_TAIL);
    page
}

/// The page after a login.
pub fn success_page(token: &str) -> (res: String)
    ensures
        res@ == SUCCESS_HEAD@ + token@ + SUCCESS_TAIL@,
{
    let mut page = SUCCESS_HEAD.to_owned();
    page.append(token);
    page.append(SUCCESS_TAIL);
    page
}

} // verus!
