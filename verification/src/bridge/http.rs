//! Remote HTTP MCP server with OAuth support: who is let in, and what is
//! answered.
//!
//! Times are milliseconds of one clock.

use vstd::prelude::*;
use vstd::utf8::{
    decode_utf8, encode_utf8, encode_utf8_decode_utf8, encode_utf8_valid_utf8, valid_utf8,
};

use crate::bridge::pages::{
    authorized_html, authorized_page, login_form, login_html, success_page, SUCCESS_HEAD,
    SUCCESS_TAIL,
};
use crate::encoding::{
    base64_bytes, base64_decode, decodes_to, from_utf8, from_utf8_lossy, lossy_text,
};
use crate::json::{
    json_text, json_view, json_views, new_object, of_array, of_text, of_u64, put, render, unsigned,
    JsonView,
};
use crate::protocol::encode::{no_members, with_text};
use crate::random::random_u64;
use crate::text::{
    after_prefix, contains_char, copied, has_prefix, hex_fixed, lemma_first_index_is, opt_str, opt_text, or_empty, push_hex, split,
    split_on, split_once, split_once_at, strip_prefix, text_or_empty, texts, trim, trimmed,
};

verus! {

/// How long an authorization code can be exchanged, in milliseconds.
pub const CODE_LIFETIME: u64 = 600_000;

/// Pending OAuth authorization codes.
#[derive(Debug)]
pub struct AuthCodeEntry {
    pub token: String,
    pub expires_at: u64,
    pub redirect_uri: Option<String>,
}

#[derive(Debug)]
pub struct AuthorizeQuery {
    pub client_id: Option<String>,
    pub redirect_uri: Option<String>,
    pub response_type: Option<String>,
    pub state: Option<String>,
    pub error: Option<String>,
}

#[derive(Debug)]
pub struct AuthorizeForm {
    pub token: String,
    pub redirect_uri: Option<String>,
    pub state: Option<String>,
    pub response_type: Option<String>,
    pub client_id: Option<String>,
}

#[derive(Debug)]
pub struct TokenRequest {
    pub grant_type: Option<String>,
    pub code: Option<String>,
    pub client_id: Option<String>,
    pub client_secret: Option<String>,
    pub password: Option<String>,
    pub token: Option<String>,
}

// ---------------------------------------------------------------------------
// Percent escapes
// ---------------------------------------------------------------------------

/// The value of a hexadecimal digit.
pub open spec fn hex_value(b: u8) -> Option<u8> {
    if 48 <= b <= 57 {
        Some((b - 48) as u8)
    } else if 97 <= b <= 102 {
        Some((b - 87) as u8)
    } else if 65 <= b <= 70 {
        Some((b - 55) as u8)
    } else {
        None
    }
}

/// The byte that two characters behind a `%` stand for: two hexadecimal digits,
/// or a `+` and one.
pub open spec fn escaped_byte(a: u8, b: u8) -> Option<u8> {
    match (hex_value(a), hex_value(b)) {
        (Some(x), Some(y)) => Some((16 * x + y) as u8),
        (None, Some(y)) => if a == 43 {
            Some(y)
        } else {
            None
        },
        _ => None,
    }
}

/// The bytes that an escaped text stands for: a `+` is a space, and a `%` with
/// what follows it is a byte, or nothing where it is malformed.
pub open spec fn unescaped(s: Seq<u8>) -> Seq<u8>
    decreases s.len(),
{
    if s.len() == 0 {
        Seq::empty()
    } else if s[0] == 37 {
        if s.len() < 3 {
            Seq::empty()
        } else {
            match escaped_byte(s[1], s[2]) {
                Some(b) => seq![b] + unescaped(s.skip(3)),
                None => unescaped(s.skip(3)),
            }
        }
    } else if s[0] == 43 {
        seq![32u8] + unescaped(s.skip(1))
    } else {
        seq![s[0]] + unescaped(s.skip(1))
    }
}

/// The text that an escaped text stands for.
pub open spec fn percent_decoded(s: Seq<char>) -> Seq<char> {
    lossy_text(unescaped(encode_utf8(s)))
}

/// The value is `v`.
pub open spec fn is_value(value: Option<u8>, v: u8) -> bool {
    value == Some(v)
}

fn hex_digit_value(b: u8) -> (res: Option<u8>)
    ensures
        res == hex_value(b),
        forall|v: u8|
            v < 10 ==> (b == 48 + v <==> #[trigger] is_value(res, v)),
        forall|v: u8|
            10 <= v < 16 ==> (b == 97 + v - 10 || b == 65 + v - 10 <==> #[trigger] is_value(res, v)),
        res is Some ==> res->0 < 16,
{
    if 48 <= b && b <= 57 {
        Some(b - 48)
    } else if 97 <= b && b <= 102 {
        Some(b - 87)
    } else if 65 <= b && b <= 70 {
        Some(b - 55)
    } else {
        None
    }
}

fn escape(a: u8, b: u8) -> (res: Option<u8>)
    ensures
        res == escaped_byte(a, b),
{
    match (hex_digit_value(a), hex_digit_value(b)) {
        (Some(x), Some(y)) => Some(16 * x + y),
        (None, Some(y)) => if a == 43 {
            Some(y)
        } else {
            None
        },
        _ => None,
    }
}

/// The bytes that escaped bytes stand for.
pub fn unescape(s: &[u8]) -> (res: Vec<u8>)
    ensures
        res@ == unescaped(s@),
{
    let mut out: Vec<u8> = Vec::new();
    let total: usize = s.len();
    let mut i: usize = 0;
    assert(s@.skip(0) =~= s@);
    assert(out@ + unescaped(s@.skip(0)) =~= unescaped(s@));
    while i < total
        invariant
            total == s@.len(),
            i <= total,
            out@ + unescaped(s@.skip(i as int)) == unescaped(s@),
        decreases total - i,
    {
        let ghost rest = s@.skip(i as int);
        let ghost before = out@;
        if s[i] == 37 {
            if total - i < 3 {
                i = total;
                assert(unescaped(s@.skip(i as int)) =~= Seq::<u8>::empty());
                assert(out@ + unescaped(s@.skip(i as int)) =~= before + unescaped(rest));
            } else {
                if let Some(b) = escape(s[i + 1], s[i + 2]) {
                    out.push(b);
                }
                assert(rest.skip(3) =~= s@.skip(i + 3));
                i = i + 3;
                assert(out@ + unescaped(s@.skip(i as int)) =~= before + unescaped(rest));
            }
        } else {
            if s[i] == 43 {
                out.push(32);
            } else {
                out.push(s[i]);
            }
            assert(rest.skip(1) =~= s@.skip(i + 1));
            i = i + 1;
            assert(out@ + unescaped(s@.skip(i as int)) =~= before + unescaped(rest));
        }
    }
    assert(unescaped(s@.skip(i as int)) =~= Seq::<u8>::empty());
    assert(out@ =~= unescaped(s@));
    out
}

/// The text that an escaped text stands for.
pub fn decode_percent(input: &str) -> (res: String)
    ensures
        res@ == percent_decoded(input@),
        valid_utf8(unescaped(encode_utf8(input@))) ==> res@ == decode_utf8(
            unescaped(encode_utf8(input@)),
        ),
{
    from_utf8_lossy(unescape(input.as_bytes()).as_slice())
}

/// `s` is an escape of `bytes`: each byte stands for itself, unless it is a `%`
/// or a `+`, or it is a space and stands as `+`, or it is written as `%` and two
/// hexadecimal digits, in upper or in lower case. Each byte may be written in
/// its own way.
pub open spec fn is_escape_of(s: Seq<u8>, bytes: Seq<u8>) -> bool
    decreases bytes.len(),
{
    if bytes.len() == 0 {
        s.len() == 0
    } else if s.len() == 0 {
        false
    } else if s[0] == 37 {
        &&& s.len() >= 3
        &&& hex_value(s[1]) == Some((bytes[0] / 16) as u8)
        &&& hex_value(s[2]) == Some((bytes[0] % 16) as u8)
        &&& is_escape_of(s.skip(3), bytes.skip(1))
    } else if s[0] == 43 {
        bytes[0] == 32 && is_escape_of(s.skip(1), bytes.skip(1))
    } else {
        bytes[0] == s[0] && is_escape_of(s.skip(1), bytes.skip(1))
    }
}

/// Escaping is undone, byte for byte.
proof fn lemma_escape_is_undone(s: Seq<u8>, bytes: Seq<u8>)
    requires
        is_escape_of(s, bytes),
    ensures
        unescaped(s) == bytes,
    decreases bytes.len(),
{
    if bytes.len() == 0 {
        assert(unescaped(s) =~= bytes);
    } else {
        let b = bytes[0];
        assert(bytes =~= seq![b] + bytes.skip(1));
        if s[0] == 37 {
            lemma_escape_is_undone(s.skip(3), bytes.skip(1));
            assert(escaped_byte(s[1], s[2]) == Some(b));
        } else {
            lemma_escape_is_undone(s.skip(1), bytes.skip(1));
        }
    }
}

/// An escaped text is decoded to the text it was made of, in whichever way each
/// of its bytes was written.
pub proof fn lemma_escaped_text_is_decoded(escaped: Seq<char>, text: Seq<char>)
    requires
        is_escape_of(encode_utf8(escaped), encode_utf8(text)),
    ensures
        ({
            let bytes = unescaped(encode_utf8(escaped));
            valid_utf8(bytes) && decode_utf8(bytes) == text
        }),
{
    lemma_escape_is_undone(encode_utf8(escaped), encode_utf8(text));
    encode_utf8_valid_utf8(text);
    encode_utf8_decode_utf8(text);
}

/// What is not an escape is passed over: a `%` with two characters behind it that
/// are not hexadecimal digits, unless they are a `+` and one, stands for nothing,
/// and so does a `%` with fewer behind it, with what is there.
pub proof fn lemma_malformed_escapes_are_passed_over(a: u8, b: u8, rest: Seq<u8>)
    requires
        hex_value(b) is None || hex_value(a) is None && a != 43,
    ensures
        unescaped(seq![37u8, a, b] + rest) == unescaped(rest),
        unescaped(seq![37u8, a]) == Seq::<u8>::empty(),
        unescaped(seq![37u8]) == Seq::<u8>::empty(),
        hex_value(37) is None && hex_value(43) is None && hex_value(32) is None,
        forall|d: u8| #[trigger]
            hex_value(d) is Some ==> unescaped(seq![37u8, 43u8, d] + rest) == seq![hex_value(d)->0]
                + unescaped(rest),
{
    assert forall|d: u8| #[trigger] hex_value(d) is Some implies unescaped(
        seq![37u8, 43u8, d] + rest,
    ) == seq![hex_value(d)->0] + unescaped(rest) by {
        let s = seq![37u8, 43u8, d] + rest;
        assert(s.skip(3) =~= rest);
        assert(s[0] == 37 && s[1] == 43 && s[2] == d);
    }
    let s = seq![37u8, a, b] + rest;
    assert(s.skip(3) =~= rest);
    assert(s[0] == 37 && s[1] == a && s[2] == b);
}

// ---------------------------------------------------------------------------
// Tokens in requests
// ---------------------------------------------------------------------------

/// The name of a query parameter or cookie that carries a token.
pub open spec fn carries_token(name: Seq<char>) -> bool {
    name == "token"@ || name == "access_token"@
}

fn is_token_name(name: &str) -> (res: bool)
    ensures
        res == carries_token(name@),
{
    *name == *"token" || *name == *"access_token"
}

/// The text, unless it is empty.
pub open spec fn non_empty(t: Seq<char>) -> Option<Seq<char>> {
    if t.len() > 0 {
        Some(t)
    } else {
        None
    }
}

/// The token of an `Authorization: Bearer` header.
pub open spec fn bearer_token(header: Option<Seq<char>>) -> Option<Seq<char>> {
    match header {
        Some(h) => match after_prefix(h, "Bearer "@) {
            Some(t) => non_empty(trimmed(t)),
            None => None,
        },
        None => None,
    }
}

/// The token that one parameter of a query carries.
pub open spec fn param_token(pair: Seq<char>) -> Option<Seq<char>> {
    match split_once_at(pair, '=') {
        Some((k, v)) => if carries_token(k) {
            non_empty(percent_decoded(v))
        } else {
            None
        },
        None => None,
    }
}

/// The token that the first parameter to carry one carries.
pub open spec fn first_param_token(pairs: Seq<Seq<char>>) -> Option<Seq<char>>
    decreases pairs.len(),
{
    if pairs.len() == 0 {
        None
    } else {
        match param_token(pairs[0]) {
            Some(t) => Some(t),
            None => first_param_token(pairs.drop_first()),
        }
    }
}

/// The token of a query: `token=` or `access_token=`.
pub open spec fn query_token(query: Option<Seq<char>>) -> Option<Seq<char>> {
    match query {
        Some(q) => first_param_token(split_on(q, '&')),
        None => None,
    }
}

/// The token that one cookie carries.
pub open spec fn one_cookie_token(part: Seq<char>) -> Option<Seq<char>> {
    match split_once_at(trimmed(part), '=') {
        Some((k, v)) => if carries_token(k) {
            non_empty(trimmed(v))
        } else {
            None
        },
        None => None,
    }
}

/// The token that the first cookie to carry one carries.
pub open spec fn first_cookie_token(parts: Seq<Seq<char>>) -> Option<Seq<char>>
    decreases parts.len(),
{
    if parts.len() == 0 {
        None
    } else {
        match one_cookie_token(parts[0]) {
            Some(t) => Some(t),
            None => first_cookie_token(parts.drop_first()),
        }
    }
}

/// The token of the cookies: `token=` or `access_token=`.
pub open spec fn cookie_token(cookie: Option<Seq<char>>) -> Option<Seq<char>> {
    match cookie {
        Some(c) => first_cookie_token(split_on(c, ';')),
        None => None,
    }
}

/// What a request presents: the values of its `Authorization` and `Cookie`
/// headers, where they are text, and its query.
#[derive(Clone, Copy, Debug)]
pub struct Credentials<'a> {
    pub authorization: Option<&'a str>,
    pub query: Option<&'a str>,
    pub cookie: Option<&'a str>,
}

/// The token that a request presents: the header comes first, then the query,
/// then the cookies.
pub open spec fn presented_token(c: Credentials) -> Option<Seq<char>> {
    match bearer_token(opt_str(c.authorization)) {
        Some(t) => Some(t),
        None => match query_token(opt_str(c.query)) {
            Some(t) => Some(t),
            None => cookie_token(opt_str(c.cookie)),
        },
    }
}

fn token_in_header(header: Option<&str>) -> (res: Option<String>)
    ensures
        opt_text(res) == bearer_token(opt_str(header)),
{
    if let Some(h) = header {
        if let Some(rest) = strip_prefix(h, "Bearer ") {
            let t = trim(rest.as_str());
            if !t.as_str().is_empty() {
                return Some(t);
            }
        }
    }
    None
}

fn token_in_query(query: Option<&str>) -> (res: Option<String>)
    ensures
        opt_text(res) == query_token(opt_str(query)),
{
    let q = match query {
        Some(q) => q,
        None => {
            return None;
        },
    };
    let pairs = split(q, '&');
    let ghost all = split_on(q@, '&');
    let mut i: usize = 0;
    assert(all.skip(0) =~= all);
    while i < pairs.len()
        invariant
            i <= pairs@.len(),
            all == texts(pairs@),
            query_token(opt_str(query)) == first_param_token(all),
            first_param_token(all) == first_param_token(all.skip(i as int)),
        decreases pairs@.len() - i,
    {
        proof {
            assert(all.skip(i as int)[0] == pairs@[i as int]@);
            assert(all.skip(i as int).drop_first() =~= all.skip(i + 1));
        }
        if let Some((k, v)) = split_once(pairs[i].as_str(), '=') {
            if is_token_name(k.as_str()) {
                let t = decode_percent(v.as_str());
                if !t.as_str().is_empty() {
                    return Some(t);
                }
            }
        }
        i += 1;
    }
    assert(all.skip(i as int) =~= Seq::<Seq<char>>::empty());
    None
}

fn token_in_cookie(cookie: Option<&str>) -> (res: Option<String>)
    ensures
        opt_text(res) == cookie_token(opt_str(cookie)),
{
    let c = match cookie {
        Some(c) => c,
        None => {
            return None;
        },
    };
    let parts = split(c, ';');
    let ghost all = split_on(c@, ';');
    let mut i: usize = 0;
    assert(all.skip(0) =~= all);
    while i < parts.len()
        invariant
            i <= parts@.len(),
            all == texts(parts@),
            cookie_token(opt_str(cookie)) == first_cookie_token(all),
            first_cookie_token(all) == first_cookie_token(all.skip(i as int)),
        decreases parts@.len() - i,
    {
        proof {
            assert(all.skip(i as int)[0] == parts@[i as int]@);
            assert(all.skip(i as int).drop_first() =~= all.skip(i + 1));
        }
        let part = trim(parts[i].as_str());
        if let Some((k, v)) = split_once(part.as_str(), '=') {
            if is_token_name(k.as_str()) {
                let t = trim(v.as_str());
                if !t.as_str().is_empty() {
                    return Some(t);
                }
            }
        }
        i += 1;
    }
    assert(all.skip(i as int) =~= Seq::<Seq<char>>::empty());
    None
}

/// The token that a request presents.
pub fn extract_token(c: &Credentials) -> (res: Option<String>)
    ensures
        opt_text(res) == presented_token(*c),
{
    if let Some(t) = token_in_header(c.authorization) {
        return Some(t);
    }
    if let Some(t) = token_in_query(c.query) {
        return Some(t);
    }
    token_in_cookie(c.cookie)
}

/// The parameter, or cookie, is one that carries a token, with this value.
pub open spec fn is_token_param(pair: Seq<char>, value: Seq<char>) -> bool {
    pair == "token="@ + value || pair == "access_token="@ + value
}

/// What is split at the first `=` is told apart by the name before it.
proof fn lemma_param_parts(pair: Seq<char>, name: Seq<char>, value: Seq<char>)
    requires
        !name.contains('='),
        pair == name + seq!['='] + value,
    ensures
        split_once_at(pair, '=') == Some((name, value)),
{
    let n = name.len() as int;
    assert forall|j: int| 0 <= j < n implies pair[j] != '=' by {
        assert(pair[j] == name[j]);
        assert(name.contains(name[j]));
    }
    lemma_first_index_is(pair, '=', n);
    assert(pair.take(n) =~= name);
    assert(pair.skip(n + 1) =~= value);
}

/// What stands before and after the first `=` makes up the pair.
proof fn lemma_parts_make_up_the_param(pair: Seq<char>)
    ensures
        split_once_at(pair, '=') matches Some((k, v)) ==> pair == k + seq!['='] + v,
{
    crate::text::lemma_first_index_of(pair, '=');
    let i = crate::text::first_index_of(pair, '=');
    if i < pair.len() {
        assert(pair =~= pair.take(i) + seq!['='] + pair.skip(i + 1));
    }
}

/// A parameter carries a token if and only if it is `token=` or `access_token=`
/// with a value.
proof fn lemma_token_param(pair: Seq<char>)
    ensures
        match split_once_at(pair, '=') {
            Some((k, v)) => forall|w: Seq<char>| #[trigger]
                is_token_param(pair, w) <==> carries_token(k) && w == v,
            None => forall|w: Seq<char>| !#[trigger] is_token_param(pair, w),
        },
{
    reveal_strlit("token");
    reveal_strlit("access_token");
    reveal_strlit("token=");
    reveal_strlit("access_token=");
    assert("token="@ =~= "token"@ + seq!['=']);
    assert("access_token="@ =~= "access_token"@ + seq!['=']);
    assert(!"token"@.contains('='));
    assert(!"access_token"@.contains('='));
    lemma_parts_make_up_the_param(pair);
    assert forall|w: Seq<char>| #[trigger] is_token_param(pair, w) implies split_once_at(pair, '=')
        == Some(("token"@, w)) || split_once_at(pair, '=') == Some(("access_token"@, w)) by {
        if pair == "token="@ + w {
            assert(pair =~= "token"@ + seq!['='] + w);
            lemma_param_parts(pair, "token"@, w);
        } else {
            assert(pair =~= "access_token"@ + seq!['='] + w);
            lemma_param_parts(pair, "access_token"@, w);
        }
    }
}

/// The token of a query is that of the first parameter that carries one: one that
/// is `token=` or `access_token=` with a value, which is escaped and not empty.
/// Where no parameter is, there is none.
pub proof fn lemma_query_token_is_the_first(query: Seq<char>, i: int, value: Seq<char>)
    requires
        0 <= i <= split_on(query, '&').len(),
        forall|j: int, w: Seq<char>|
            0 <= j < i && #[trigger] is_token_param(split_on(query, '&')[j], w) ==> percent_decoded(
                w,
            ).len() == 0,
        i < split_on(query, '&').len() ==> is_token_param(split_on(query, '&')[i], value)
            && percent_decoded(value).len() > 0,
    ensures
        i < split_on(query, '&').len() ==> query_token(Some(query)) == Some(
            percent_decoded(value),
        ),
        i == split_on(query, '&').len() ==> query_token(Some(query)) is None,
{
    let pairs = split_on(query, '&');
    lemma_first_param_is(pairs, i, value);
}

/// The first parameter that carries a token, among those that are left.
proof fn lemma_first_param_is(pairs: Seq<Seq<char>>, i: int, value: Seq<char>)
    requires
        0 <= i <= pairs.len(),
        forall|j: int, w: Seq<char>|
            0 <= j < i && #[trigger] is_token_param(pairs[j], w) ==> percent_decoded(w).len() == 0,
        i < pairs.len() ==> is_token_param(pairs[i], value) && percent_decoded(value).len() > 0,
    ensures
        i < pairs.len() ==> first_param_token(pairs) == Some(percent_decoded(value)),
        i == pairs.len() ==> first_param_token(pairs) is None,
    decreases pairs.len(),
{
    if pairs.len() > 0 {
        lemma_token_param(pairs[0]);
        if i > 0 {
            if let Some((k, v)) = split_once_at(pairs[0], '=') {
                if carries_token(k) {
                    assert(is_token_param(pairs[0], v));
                }
            }
            let rest = pairs.drop_first();
            assert forall|j: int, w: Seq<char>|
                0 <= j < i - 1 && #[trigger] is_token_param(rest[j], w) implies percent_decoded(
                w,
            ).len() == 0 by {
                assert(is_token_param(pairs[j + 1], w));
            }
            lemma_first_param_is(rest, i - 1, value);
        }
    }
}

/// The token of the cookies is that of the first one that carries one: one that is
/// `token=` or `access_token=` with a value that is not empty, white space aside.
/// Where no cookie is, there is none.
pub proof fn lemma_cookie_token_is_the_first(cookie: Seq<char>, i: int, value: Seq<char>)
    requires
        0 <= i <= split_on(cookie, ';').len(),
        forall|j: int, w: Seq<char>|
            0 <= j < i && #[trigger] is_token_param(trimmed(split_on(cookie, ';')[j]), w)
                ==> trimmed(w).len() == 0,
        i < split_on(cookie, ';').len() ==> is_token_param(
            trimmed(split_on(cookie, ';')[i]),
            value,
        ) && trimmed(value).len() > 0,
    ensures
        i < split_on(cookie, ';').len() ==> cookie_token(Some(cookie)) == Some(trimmed(value)),
        i == split_on(cookie, ';').len() ==> cookie_token(Some(cookie)) is None,
{
    lemma_first_cookie_is(split_on(cookie, ';'), i, value);
}

/// The first cookie that carries a token, among those that are left.
proof fn lemma_first_cookie_is(parts: Seq<Seq<char>>, i: int, value: Seq<char>)
    requires
        0 <= i <= parts.len(),
        forall|j: int, w: Seq<char>|
            0 <= j < i && #[trigger] is_token_param(trimmed(parts[j]), w) ==> trimmed(w).len() == 0,
        i < parts.len() ==> is_token_param(trimmed(parts[i]), value) && trimmed(value).len() > 0,
    ensures
        i < parts.len() ==> first_cookie_token(parts) == Some(trimmed(value)),
        i == parts.len() ==> first_cookie_token(parts) is None,
    decreases parts.len(),
{
    if parts.len() > 0 {
        let part = trimmed(parts[0]);
        lemma_token_param(part);
        if i > 0 {
            if let Some((k, v)) = split_once_at(part, '=') {
                if carries_token(k) {
                    assert(is_token_param(part, v));
                }
            }
            let rest = parts.drop_first();
            assert forall|j: int, w: Seq<char>|
                0 <= j < i - 1 && #[trigger] is_token_param(trimmed(rest[j]), w) implies trimmed(
                w,
            ).len() == 0 by {
                assert(is_token_param(trimmed(parts[j + 1]), w));
            }
            lemma_first_cookie_is(rest, i - 1, value);
        }
    }
}

/// Which token a request presents: what stands behind `Bearer ` in its header,
/// white space aside; where there is nothing the token of its query; and where
/// there is none that of its cookies.
pub proof fn lemma_header_comes_before_query_and_cookies(c: Credentials, rest: Seq<char>)
    ensures
        c.authorization is Some && c.authorization->0@ == "Bearer "@ + rest && trimmed(rest).len()
            > 0 ==> presented_token(c) == Some(trimmed(rest)),
        (c.authorization is None || !has_prefix(c.authorization->0@, "Bearer "@) || (
        c.authorization->0@ == "Bearer "@ + rest && trimmed(rest).len() == 0)) ==> {
            &&& query_token(opt_str(c.query)) is Some ==> presented_token(c) == query_token(
                opt_str(c.query),
            )
            &&& query_token(opt_str(c.query)) is None ==> presented_token(c) == cookie_token(
                opt_str(c.cookie),
            )
        },
        c.query is None ==> query_token(opt_str(c.query)) is None,
        c.cookie is None ==> cookie_token(opt_str(c.cookie)) is None,
{
    let h = "Bearer "@ + rest;
    let n = "Bearer "@.len() as int;
    assert(h.subrange(0, 0 + n) =~= "Bearer "@);
    assert(h.skip(n) =~= rest);
}

// ---------------------------------------------------------------------------
// Answers
// ---------------------------------------------------------------------------

/// An answer: status, headers and body.
#[derive(Debug)]
pub struct HttpReply {
    pub status: u16,
    pub headers: Vec<(String, String)>,
    pub body: String,
}

/// An answer, as a mathematical value.
#[verifier::ext_equal]
pub struct ReplyView {
    pub status: u16,
    pub headers: Seq<(Seq<char>, Seq<char>)>,
    pub body: Seq<char>,
}

/// Headers by name and value.
pub open spec fn header_views(headers: Seq<(String, String)>) -> Seq<(Seq<char>, Seq<char>)> {
    headers.map_values(|h: (String, String)| (h.0@, h.1@))
}

impl View for HttpReply {
    type V = ReplyView;

    open spec fn view(&self) -> ReplyView {
        ReplyView {
            status: self.status,
            headers: header_views(self.headers@),
            body: self.body@,
        }
    }
}

/// The headers that let pages of any origin use the server.
pub open spec fn cors_headers() -> Seq<(Seq<char>, Seq<char>)> {
    seq![
        ("access-control-allow-origin"@, "*"@),
        ("access-control-allow-methods"@, "GET, POST, DELETE, OPTIONS"@),
        (
            "access-control-allow-headers"@,
            "Authorization, Content-Type, Mcp-Session-Id, Mcp-Protocol-Version, Last-Event-Id, X-Requested-With"@,
        ),
        ("access-control-expose-headers"@, "Mcp-Session-Id, Mcp-Protocol-Version"@),
    ]
}

/// Adds a header.
fn add_header(headers: &mut Vec<(String, String)>, name: &str, value: &str)
    ensures
        header_views(final(headers)@) == header_views(old(headers)@).push((name@, value@)),
{
    let ghost before = headers@;
    headers.push((name.to_owned(), value.to_owned()));
    assert(header_views(headers@) =~= header_views(before).push((name@, value@)));
}

/// Adds the headers that let pages of any origin use the server.
pub fn add_cors_headers(headers: &mut Vec<(String, String)>)
    ensures
        header_views(final(headers)@) == header_views(old(headers)@) + cors_headers(),
        header_views(final(headers)@) == header_views(old(headers)@).push(
            ("access-control-allow-origin"@, "*"@),
        ).push(("access-control-allow-methods"@, "GET, POST, DELETE, OPTIONS"@)).push(
            (
                "access-control-allow-headers"@,
                "Authorization, Content-Type, Mcp-Session-Id, Mcp-Protocol-Version, Last-Event-Id, X-Requested-With"@,
            ),
        ).push(("access-control-expose-headers"@, "Mcp-Session-Id, Mcp-Protocol-Version"@)),
{
    let ghost before = header_views(headers@);
    add_header(headers, "access-control-allow-origin", "*");
    add_header(headers, "access-control-allow-methods", "GET, POST, DELETE, OPTIONS");
    add_header(
        headers,
        "access-control-allow-headers",
        "Authorization, Content-Type, Mcp-Session-Id, Mcp-Protocol-Version, Last-Event-Id, X-Requested-With",
    );
    add_header(
        headers,
        "access-control-expose-headers",
        "Mcp-Session-Id, Mcp-Protocol-Version",
    );
    assert(header_views(headers@) =~= before + cors_headers());
}

/// An answer in JSON.
pub open spec fn json_reply(status: u16, body: JsonView) -> ReplyView {
    ReplyView {
        status,
        headers: seq![("content-type"@, "application/json"@)] + cors_headers(),
        body: json_text(body),
    }
}

fn make_json_reply(status: u16, body: &serde_json::Value) -> (res: HttpReply)
    ensures
        res@ == json_reply(status, json_view(*body)),
        res.status == status,
        res.body@ == json_text(json_view(*body)),
        res@.headers == seq![("content-type"@, "application/json"@)] + cors_headers(),
{
    let mut headers: Vec<(String, String)> = Vec::new();
    assert(header_views(headers@) =~= Seq::<(Seq<char>, Seq<char>)>::empty());
    add_header(&mut headers, "content-type", "application/json");
    add_cors_headers(&mut headers);
    let reply = HttpReply { status, headers, body: render(body) };
    assert(reply@ =~= json_reply(status, json_view(*body)));
    reply
}

/// The answer to a preflight request.
pub fn cors_preflight_response() -> (res: HttpReply)
    ensures
        res@ == (ReplyView { status: 204, headers: cors_headers(), body: ""@ }),
{
    let mut headers: Vec<(String, String)> = Vec::new();
    assert(header_views(headers@) =~= Seq::<(Seq<char>, Seq<char>)>::empty());
    add_cors_headers(&mut headers);
    let reply = HttpReply { status: 204, headers, body: "".to_owned() };
    assert(reply@.headers =~= cors_headers());
    reply
}

/// What stands in the body of a refusal.
pub open spec fn unauthorized_body() -> JsonView {
    JsonView::Object(
        with_text(
            with_text(
                with_text(no_members(), "error"@, "unauthorized"@),
                "message"@,
                "Valid token required. Pass 'Authorization: Bearer <token>', query '?token=<token>', or visit /login to authenticate."@,
            ),
            "login_url"@,
            "/login"@,
        ),
    )
}

/// The refusal of a request without a valid token.
pub open spec fn unauthorized_reply() -> ReplyView {
    ReplyView {
        status: 401,
        headers: seq![
            (
                "www-authenticate"@,
                "Bearer realm=\"relayfs\", error=\"invalid_token\", resource_metadata=\"/.well-known/oauth-protected-resource\""@,
            ),
            ("link"@, "</.well-known/oauth-protected-resource>; rel=\"describedby\""@),
            ("content-type"@, "application/json"@),
        ] + cors_headers(),
        body: json_text(unauthorized_body()),
    }
}

/// The refusal of a request without a valid token.
pub fn unauthorized_response() -> (res: HttpReply)
    ensures
        res@ == unauthorized_reply(),
        res.status == 401,
        res@.headers == seq![
            (
                "www-authenticate"@,
                "Bearer realm=\"relayfs\", error=\"invalid_token\", resource_metadata=\"/.well-known/oauth-protected-resource\""@,
            ),
            ("link"@, "</.well-known/oauth-protected-resource>; rel=\"describedby\""@),
            ("content-type"@, "application/json"@),
        ] + cors_headers(),
        res.body@ == json_text(
            JsonView::Object(
                map![
                    "error"@ => JsonView::Text("unauthorized"@),
                    "message"@ => JsonView::Text(
                        "Valid token required. Pass 'Authorization: Bearer <token>', query '?token=<token>', or visit /login to authenticate."@,
                    ),
                    "login_url"@ => JsonView::Text("/login"@),
                ],
            ),
        ),
{
    let mut headers: Vec<(String, String)> = Vec::new();
    assert(header_views(headers@) =~= Seq::<(Seq<char>, Seq<char>)>::empty());
    add_header(
        &mut headers,
        "www-authenticate",
        "Bearer realm=\"relayfs\", error=\"invalid_token\", resource_metadata=\"/.well-known/oauth-protected-resource\"",
    );
    add_header(
        &mut headers,
        "link",
        "</.well-known/oauth-protected-resource>; rel=\"describedby\"",
    );
    add_header(&mut headers, "content-type", "application/json");
    add_cors_headers(&mut headers);
    let mut body = new_object();
    put(&mut body, "error", of_text("unauthorized"));
    put(
        &mut body,
        "message",
        of_text(
            "Valid token required. Pass 'Authorization: Bearer <token>', query '?token=<token>', or visit /login to authenticate.",
        ),
    );
    put(&mut body, "login_url", of_text("/login"));
    let reply = HttpReply { status: 401, headers, body: render(&body) };
    assert(reply@ =~= unauthorized_reply());
    reply
}

/// A list of texts as a JSON array.
pub open spec fn text_array(items: Seq<Seq<char>>) -> JsonView {
    JsonView::Array(items.map_values(|t: Seq<char>| JsonView::Text(t)))
}

fn array_of(items: &[&str]) -> (res: serde_json::Value)
    ensures
        json_view(res) == text_array(items@.map_values(|t: &str| t@)),
{
    let ghost wanted = items@.map_values(|t: &str| t@).map_values(
        |t: Seq<char>| JsonView::Text(t),
    );
    let mut out: Vec<serde_json::Value> = Vec::new();
    let mut i: usize = 0;
    while i < items.len()
        invariant
            i <= items@.len(),
            out@.len() == i,
            wanted == items@.map_values(|t: &str| t@).map_values(
                |t: Seq<char>| JsonView::Text(t),
            ),
            forall|k: int| 0 <= k < i ==> json_view(#[trigger] out@[k]) == wanted[k],
        decreases items@.len() - i,
    {
        out.push(of_text(items[i]));
        i += 1;
    }
    assert(json_views(out@) =~= wanted);
    of_array(out)
}

/// What the server says of the resource that it protects (RFC 9728).
pub open spec fn resource_metadata() -> JsonView {
    JsonView::Object(
        with_text(no_members(), "resource"@, "/mcp"@).insert(
            "authorization_servers"@,
            text_array(seq!["/"@]),
        ).insert("scopes_supported"@, text_array(seq!["mcp:tools"@])),
    )
}

/// OAuth 2.0 Protected Resource Metadata (RFC 9728).
pub fn oauth_protected_resource() -> (res: HttpReply)
    ensures
        res@ == json_reply(200, resource_metadata()),
        res.status == 200,
        res.body@ == json_text(
            JsonView::Object(
                map![
                    "resource"@ => JsonView::Text("/mcp"@),
                    "authorization_servers"@ => text_array(seq!["/"@]),
                    "scopes_supported"@ => text_array(seq!["mcp:tools"@]),
                ],
            ),
        ),
{
    let mut v = new_object();
    put(&mut v, "resource", of_text("/mcp"));
    let servers: [&str; 1] = ["/"];
    let scopes: [&str; 1] = ["mcp:tools"];
    put(&mut v, "authorization_servers", array_of(servers.as_slice()));
    put(&mut v, "scopes_supported", array_of(scopes.as_slice()));
    assert(servers@.map_values(|t: &str| t@) =~= seq!["/"@]);
    assert(scopes@.map_values(|t: &str| t@) =~= seq!["mcp:tools"@]);
    make_json_reply(200, &v)
}

/// What the server says of itself as an authorization server (RFC 8414).
pub open spec fn server_metadata() -> JsonView {
    JsonView::Object(
        with_text(
            with_text(
                with_text(no_members(), "issuer"@, "/"@),
                "authorization_endpoint"@,
                "/oauth/authorize"@,
            ),
            "token_endpoint"@,
            "/oauth/token"@,
        ).insert("response_types_supported"@, text_array(seq!["code"@, "token"@])).insert(
            "grant_types_supported"@,
            text_array(seq!["authorization_code"@, "client_credentials"@, "password"@]),
        ).insert(
            "token_endpoint_auth_methods_supported"@,
            text_array(seq!["client_secret_post"@, "client_secret_basic"@, "none"@]),
        ),
    )
}

/// OAuth 2.0 Authorization Server Metadata (RFC 8414).
pub fn oauth_authorization_server() -> (res: HttpReply)
    ensures
        res@ == json_reply(200, server_metadata()),
        res.status == 200,
        res.body@ == json_text(
            JsonView::Object(
                map![
                    "issuer"@ => JsonView::Text("/"@),
                    "authorization_endpoint"@ => JsonView::Text("/oauth/authorize"@),
                    "token_endpoint"@ => JsonView::Text("/oauth/token"@),
                    "response_types_supported"@ => text_array(seq!["code"@, "token"@]),
                    "grant_types_supported"@ => text_array(
                        seq!["authorization_code"@, "client_credentials"@, "password"@],
                    ),
                    "token_endpoint_auth_methods_supported"@ => text_array(
                        seq!["client_secret_post"@, "client_secret_basic"@, "none"@],
                    ),
                ],
            ),
        ),
{
    let mut v = new_object();
    put(&mut v, "issuer", of_text("/"));
    put(&mut v, "authorization_endpoint", of_text("/oauth/authorize"));
    put(&mut v, "token_endpoint", of_text("/oauth/token"));
    let types: [&str; 2] = ["code", "token"];
    let grants: [&str; 3] = ["authorization_code", "client_credentials", "password"];
    let methods: [&str; 3] = ["client_secret_post", "client_secret_basic", "none"];
    put(&mut v, "response_types_supported", array_of(types.as_slice()));
    put(&mut v, "grant_types_supported", array_of(grants.as_slice()));
    put(&mut v, "token_endpoint_auth_methods_supported", array_of(methods.as_slice()));
    assert(types@.map_values(|t: &str| t@) =~= seq!["code"@, "token"@]);
    assert(grants@.map_values(|t: &str| t@) =~= seq![
        "authorization_code"@,
        "client_credentials"@,
        "password"@,
    ]);
    assert(methods@.map_values(|t: &str| t@) =~= seq![
        "client_secret_post"@,
        "client_secret_basic"@,
        "none"@,
    ]);
    make_json_reply(200, &v)
}

// ---------------------------------------------------------------------------
// The state
// ---------------------------------------------------------------------------

/// A pending authorization code, as a mathematical value.
pub struct CodeView {
    pub code: Seq<char>,
    pub token: Seq<char>,
    pub expires_at: u64,
    pub redirect_uri: Option<Seq<char>>,
}

/// What the server keeps.
#[derive(Debug)]
pub struct HttpState {
    pub token: String,
    auth_codes: Vec<(String, AuthCodeEntry)>,
}

/// What the server keeps, as a mathematical value.
#[verifier::ext_equal]
pub struct HttpView {
    pub token: Seq<char>,
    pub codes: Seq<CodeView>,
}

/// Pending codes.
pub open spec fn code_views(codes: Seq<(String, AuthCodeEntry)>) -> Seq<CodeView> {
    codes.map_values(
        |c: (String, AuthCodeEntry)|
            CodeView {
                code: c.0@,
                token: c.1.token@,
                expires_at: c.1.expires_at,
                redirect_uri: opt_text(c.1.redirect_uri),
            },
    )
}

impl View for HttpState {
    type V = HttpView;

    closed spec fn view(&self) -> HttpView {
        HttpView { token: self.token@, codes: code_views(self.auth_codes@) }
    }
}

/// The codes other than `code`.
pub open spec fn without_code(codes: Seq<CodeView>, code: Seq<char>) -> Seq<CodeView>
    decreases codes.len(),
{
    if codes.len() == 0 {
        codes
    } else {
        let rest = without_code(codes.drop_last(), code);
        if codes.last().code == code {
            rest
        } else {
            rest.push(codes.last())
        }
    }
}

/// The codes that can still be exchanged at the time `now`.
pub open spec fn unexpired(codes: Seq<CodeView>, now: u64) -> Seq<CodeView>
    decreases codes.len(),
{
    if codes.len() == 0 {
        codes
    } else {
        let rest = unexpired(codes.drop_last(), now);
        if codes.last().expires_at > now {
            rest.push(codes.last())
        } else {
            rest
        }
    }
}

/// `code` is pending, and can be exchanged at the time `now`.
pub open spec fn is_valid_code(codes: Seq<CodeView>, code: Seq<char>, now: u64) -> bool {
    exists|i: int|
        0 <= i < codes.len() && (#[trigger] codes[i]).code == code && codes[i].expires_at > now
}

/// What is done with a request to the MCP endpoint.
#[derive(Clone, Copy, PartialEq, Eq, Structural, Debug)]
pub enum Access {
    /// It is a preflight request.
    Preflight,
    /// It is handed on; the answer gets the headers for other origins.
    Granted,
    /// It is refused.
    Denied,
}

/// No code is held twice.
pub open spec fn are_distinct(codes: Seq<CodeView>) -> bool {
    forall|i: int, j: int|
        0 <= i < j < codes.len() ==> (#[trigger] codes[i]).code != (#[trigger] codes[j]).code
}

impl HttpView {
    /// What always holds: a code is held once.
    pub open spec fn inv(self) -> bool {
        are_distinct(self.codes)
    }

    /// Whether the credentials let a request in: no token is required, or it
    /// is presented.
    pub open spec fn admits(self, c: Credentials) -> bool {
        self.token.len() == 0 || presented_token(c) == Some(self.token)
    }
}

impl HttpState {
    pub fn new(token: String) -> (res: Self)
        ensures
            res@.inv(),
            res@.token == token@,
            res@.codes == Seq::<CodeView>::empty(),
    {
        let res = HttpState { token, auth_codes: Vec::new() };
        assert(res@.codes =~= Seq::<CodeView>::empty());
        res
    }

    /// Whether the credentials let a request in.
    pub fn is_authed(&self, c: &Credentials) -> (res: bool)
        ensures
            res == self@.admits(*c),
            res <==> self@.token.len() == 0 || presented_token(*c) == Some(self@.token),
    {
        if self.token.as_str().is_empty() {
            return true;
        }
        match extract_token(c) {
            Some(t) => *t.as_str() == *self.token.as_str(),
            None => false,
        }
    }

    /// What is done with a request to the MCP endpoint.
    pub fn auth_middleware(&self, is_options: bool, c: &Credentials) -> (res: Access)
        ensures
            res == (if is_options {
                Access::Preflight
            } else if self@.admits(*c) {
                Access::Granted
            } else {
                Access::Denied
            }),
    {
        if is_options {
            Access::Preflight
        } else if self.is_authed(c) {
            Access::Granted
        } else {
            Access::Denied
        }
    }

    /// The page for someone who comes to log in: the token to use for who is
    /// authorized, else the form.
    pub fn login_page(&self, query: &AuthorizeQuery, c: &Credentials) -> (res: String)
        ensures
            res@ == if self@.admits(*c) {
                authorized_html(self@.token)
            } else {
                login_html(
                    or_empty(query.error),
                    or_empty(query.redirect_uri),
                    or_empty(query.state),
                    match query.response_type {
                        Some(t) => t@,
                        None => "code"@,
                    },
                    or_empty(query.client_id),
                )
            },
    {
        if self.is_authed(c) {
            return authorized_page(self.token.as_str());
        }
        let response_type = match &query.response_type {
            Some(t) => t.clone(),
            None => "code".to_owned(),
        };
        login_form(
            text_or_empty(&query.error).as_str(),
            text_or_empty(&query.redirect_uri).as_str(),
            text_or_empty(&query.state).as_str(),
            response_type.as_str(),
            text_or_empty(&query.client_id).as_str(),
        )
    }

    /// Takes a code out.
    fn remove_code(&mut self, code: &str)
        ensures
            final(self)@ == (HttpView {
                codes: without_code(old(self)@.codes, code@),
                ..old(self)@
            }),
    {
        let ghost before = self@;
        let mut kept: Vec<(String, AuthCodeEntry)> = Vec::new();
        let mut given: Vec<(String, AuthCodeEntry)> = Vec::new();
        std::mem::swap(&mut given, &mut self.auth_codes);
        let ghost all = before.codes;
        let mut i: usize = 0;
        assert(all.take(0) =~= Seq::<CodeView>::empty());
        assert(code_views(kept@) =~= without_code(all.take(0), code@));
        while i < given.len()
            invariant
                i <= given@.len(),
                all == code_views(given@),
                code_views(kept@) == without_code(all.take(i as int), code@),
            decreases given@.len() - i,
        {
            let ghost had = kept@;
            proof {
                assert(all.take(i + 1).drop_last() =~= all.take(i as int));
                assert(all[i as int].code == given@[i as int].0@);
            }
            if *given[i].0.as_str() != *code {
                let entry = AuthCodeEntry {
                    token: given[i].1.token.clone(),
                    expires_at: given[i].1.expires_at,
                    redirect_uri: copied(&given[i].1.redirect_uri),
                };
                kept.push((given[i].0.clone(), entry));
                assert(code_views(kept@) =~= code_views(had).push(all[i as int]));
            }
            i += 1;
        }
        assert(all.take(i as int) =~= all);
        self.auth_codes = kept;
    }

    /// Forgets the codes that cannot be exchanged any more.
    pub fn drop_expired(&mut self, now: u64)
        requires
            old(self)@.inv(),
        ensures
            final(self)@.inv(),
            final(self)@ == (HttpView { codes: unexpired(old(self)@.codes, now), ..old(self)@ }),
            forall|c: CodeView| #[trigger]
                final(self)@.codes.contains(c) <==> old(self)@.codes.contains(c) && c.expires_at
                    > now,
    {
        let ghost before = self@;
        proof {
            lemma_unexpired_stay_distinct(before.codes, now);
            assert forall|c: CodeView| #[trigger]
                unexpired(before.codes, now).contains(c) <==> before.codes.contains(c)
                    && c.expires_at > now by {
                lemma_other_codes_stay(before.codes, Seq::empty(), now, c);
            }
        }
        let mut kept: Vec<(String, AuthCodeEntry)> = Vec::new();
        let mut given: Vec<(String, AuthCodeEntry)> = Vec::new();
        std::mem::swap(&mut given, &mut self.auth_codes);
        let ghost all = before.codes;
        let mut i: usize = 0;
        assert(all.take(0) =~= Seq::<CodeView>::empty());
        assert(code_views(kept@) =~= unexpired(all.take(0), now));
        while i < given.len()
            invariant
                i <= given@.len(),
                all == code_views(given@),
                code_views(kept@) == unexpired(all.take(i as int), now),
            decreases given@.len() - i,
        {
            let ghost had = kept@;
            proof {
                assert(all.take(i + 1).drop_last() =~= all.take(i as int));
                assert(all[i as int].expires_at == given@[i as int].1.expires_at);
            }
            if given[i].1.expires_at > now {
                let entry = AuthCodeEntry {
                    token: given[i].1.token.clone(),
                    expires_at: given[i].1.expires_at,
                    redirect_uri: copied(&given[i].1.redirect_uri),
                };
                kept.push((given[i].0.clone(), entry));
                assert(code_views(kept@) =~= code_views(had).push(all[i as int]));
            }
            i += 1;
        }
        assert(all.take(i as int) =~= all);
        self.auth_codes = kept;
    }

    /// Whether a code is pending and can be exchanged.
    fn has_valid_code(&self, code: &str, now: u64) -> (res: bool)
        ensures
            res == is_valid_code(self@.codes, code@, now),
    {
        let mut i: usize = 0;
        while i < self.auth_codes.len()
            invariant
                i <= self.auth_codes@.len(),
                forall|k: int|
                    0 <= k < i ==> !((#[trigger] self@.codes[k]).code == code@
                        && self@.codes[k].expires_at > now),
            decreases self.auth_codes@.len() - i,
        {
            assert(self@.codes[i as int].code == self.auth_codes@[i as int].0@);
            if *self.auth_codes[i].0.as_str() == *code && self.auth_codes[i].1.expires_at > now {
                return true;
            }
            i += 1;
        }
        false
    }
}

// ---------------------------------------------------------------------------
// Logging in
// ---------------------------------------------------------------------------

/// What follows when the login form is submitted.
#[derive(Debug)]
pub enum Submitted {
    /// Go to this address.
    Redirect(String),
    /// Show this page, and keep this cookie.
    Page { html: String, cookie: String },
}

/// What follows when the login form is submitted, as a mathematical value.
pub enum SubmittedView {
    Redirect(Seq<char>),
    Page { html: Seq<char>, cookie: Seq<char> },
}

impl View for Submitted {
    type V = SubmittedView;

    open spec fn view(&self) -> SubmittedView {
        match self {
            Submitted::Redirect(url) => SubmittedView::Redirect(url@),
            Submitted::Page { html, cookie } => SubmittedView::Page { html: html@, cookie: cookie@ },
        }
    }
}

/// An authorization code.
pub open spec fn code_text(a: u64, b: u64) -> Seq<char> {
    hex_fixed(a as nat, 16) + hex_fixed(b as nat, 16)
}

/// Where a client is sent back to with its code.
pub open spec fn redirect_url(
    uri: Seq<char>,
    code: Seq<char>,
    state: Option<Seq<char>>,
) -> Seq<char> {
    uri + if uri.contains('?') {
        "&"@
    } else {
        "?"@
    } + "code="@ + code + match state {
        Some(s) => "&state="@ + s,
        None => Seq::empty(),
    }
}

impl HttpView {
    /// The token of the form is the right one, where one is required.
    pub open spec fn accepts(self, form: AuthorizeForm) -> bool {
        self.token.len() == 0 || form.token@ == self.token
    }

    /// The form asks for a code: it names where to send it.
    pub open spec fn asks_for_code(form: AuthorizeForm) -> bool {
        form.redirect_uri is Some && form.redirect_uri->0@.len() > 0
    }

    /// What follows when the form is submitted: back to the form with a wrong
    /// token, on to the client with a code, or else a page and a cookie.
    pub open spec fn submitted(self, form: AuthorizeForm, code: Seq<char>) -> SubmittedView {
        if !self.accepts(form) {
            SubmittedView::Redirect(
                "/oauth/authorize?error=Invalid%20pairing%20token&redirect_uri="@ + or_empty(
                    form.redirect_uri,
                ) + "&state="@ + or_empty(form.state),
            )
        } else if HttpView::asks_for_code(form) {
            SubmittedView::Redirect(
                redirect_url(form.redirect_uri->0@, code, opt_text(form.state)),
            )
        } else {
            SubmittedView::Page {
                html: SUCCESS_HEAD@ + form.token@ + SUCCESS_TAIL@,
                cookie: "access_token="@ + form.token@
                    + "; Path=/; HttpOnly; SameSite=Lax; Max-Age=86400"@,
            }
        }
    }

    /// The server once the form has been submitted at the time `now`: a code is
    /// pending where one was asked for with the right token.
    pub open spec fn after_submit(
        self,
        form: AuthorizeForm,
        code: Seq<char>,
        now: u64,
    ) -> HttpView {
        if self.accepts(form) && HttpView::asks_for_code(form) {
            HttpView {
                codes: without_code(self.codes, code).push(
                    CodeView {
                        code,
                        token: form.token@,
                        expires_at: (now + CODE_LIFETIME) as u64,
                        redirect_uri: Some(form.redirect_uri->0@),
                    },
                ),
                ..self
            }
        } else {
            self
        }
    }
}

impl HttpState {
    /// The login form has been submitted. `a` and `b` make up the code that may
    /// be handed out.
    pub fn submit(&mut self, form: &AuthorizeForm, a: u64, b: u64, now: u64) -> (res: Submitted)
        requires
            old(self)@.inv(),
            now <= u64::MAX - CODE_LIFETIME,
        ensures
            final(self)@.inv(),
            res@ == old(self)@.submitted(*form, code_text(a, b)),
            final(self)@ == old(self)@.after_submit(*form, code_text(a, b), now),
            final(self)@.token == old(self)@.token,
            forall|c: CodeView|
                c.code != code_text(a, b) ==> (#[trigger] final(self)@.codes.contains(c)
                    <==> old(self)@.codes.contains(c)),
            ({
                let right = old(self)@.token.len() == 0 || form.token@ == old(self)@.token;
                let asked = form.redirect_uri is Some && form.redirect_uri->0@.len() > 0;
                let code = hex_fixed(a as nat, 16) + hex_fixed(b as nat, 16);
                &&& !(right && asked) ==> final(self)@ == old(self)@
                &&& right && asked ==> {
                    &&& final(self)@.codes.len() > 0
                    &&& final(self)@.codes.last() == (CodeView {
                        code,
                        token: form.token@,
                        expires_at: (now + 600_000) as u64,
                        redirect_uri: Some(form.redirect_uri->0@),
                    })
                    &&& res@ is Redirect
                    &&& form.state is None ==> res@->Redirect_0 == form.redirect_uri->0@ + (
                    if form.redirect_uri->0@.contains('?') {
                        "&"@
                    } else {
                        "?"@
                    }) + "code="@ + code
                    &&& form.state is Some ==> res@->Redirect_0 == form.redirect_uri->0@ + (
                    if form.redirect_uri->0@.contains('?') {
                        "&"@
                    } else {
                        "?"@
                    }) + "code="@ + code + "&state="@ + form.state->0@
                }
                &&& right && !asked ==> res@ == (SubmittedView::Page {
                    html: SUCCESS_HEAD@ + form.token@ + SUCCESS_TAIL@,
                    cookie: "access_token="@ + form.token@
                        + "; Path=/; HttpOnly; SameSite=Lax; Max-Age=86400"@,
                })
                &&& !right ==> res@ == SubmittedView::Redirect(
                    "/oauth/authorize?error=Invalid%20pairing%20token&redirect_uri="@ + or_empty(
                        form.redirect_uri,
                    ) + "&state="@ + or_empty(form.state),
                )
            }),
    {
        let ghost before = self@;
        proof {
            lemma_others_stay_distinct(before.codes, code_text(a, b));
            lemma_code_is_gone(before.codes, code_text(a, b));
            lemma_submitting_keeps_other_codes(before, *form, code_text(a, b), now);
        }
        if !self.token.as_str().is_empty() && *form.token.as_str() != *self.token.as_str() {
            let mut url =
                "/oauth/authorize?error=Invalid%20pairing%20token&redirect_uri=".to_owned();
            url.append(text_or_empty(&form.redirect_uri).as_str());
            url.append("&state=");
            url.append(text_or_empty(&form.state).as_str());
            return Submitted::Redirect(url);
        }
        if let Some(uri) = &form.redirect_uri {
            if !uri.as_str().is_empty() {
                let mut code = String::new();
                push_hex(&mut code, a, 16);
                push_hex(&mut code, b, 16);
                assert(code@ =~= code_text(a, b));
                self.remove_code(code.as_str());
                let ghost rest = self@.codes;
                let entry = AuthCodeEntry {
                    token: form.token.clone(),
                    expires_at: now + CODE_LIFETIME,
                    redirect_uri: Some(uri.clone()),
                };
                self.auth_codes.push((code.clone(), entry));
                assert(self@ =~= before.after_submit(*form, code@, now));
                let mut url = uri.clone();
                if contains_char(uri.as_str(), '?') {
                    url.append("&");
                } else {
                    url.append("?");
                }
                url.append("code=");
                url.append(code.as_str());
                if let Some(state) = &form.state {
                    url.append("&state=");
                    url.append(state.as_str());
                }
                assert(url@ =~= redirect_url(uri@, code@, opt_text(form.state)));
                assert(form.state is None ==> url@ =~= uri@ + (if uri@.contains('?') {
                    "&"@
                } else {
                    "?"@
                }) + "code="@ + code@);
                assert(form.state is Some ==> url@ =~= uri@ + (if uri@.contains('?') {
                    "&"@
                } else {
                    "?"@
                }) + "code="@ + code@ + "&state="@ + form.state->0@);
                return Submitted::Redirect(url);
            }
        }
        let mut cookie = "access_token=".to_owned();
        cookie.append(form.token.as_str());
        cookie.append("; Path=/; HttpOnly; SameSite=Lax; Max-Age=86400");
        Submitted::Page { html: success_page(form.token.as_str()), cookie }
    }

    /// The login form has been submitted; a code that is handed out is random.
    pub fn authorize_submit(&mut self, form: &AuthorizeForm, now: u64) -> (res: Submitted)
        requires
            old(self)@.inv(),
            now <= u64::MAX - CODE_LIFETIME,
        ensures
            final(self)@.inv(),
            exists|a: u64, b: u64|
                res@ == old(self)@.submitted(*form, #[trigger] code_text(a, b)) && final(self)@
                    == old(self)@.after_submit(*form, code_text(a, b), now),
    {
        let a = random_u64();
        let b = random_u64();
        self.submit(form, a, b, now)
    }
}

// ---------------------------------------------------------------------------
// Handing out tokens
// ---------------------------------------------------------------------------

/// The value of the last parameter `name` of a form.
pub open spec fn form_value(pairs: Seq<Seq<char>>, name: Seq<char>) -> Option<Seq<char>>
    decreases pairs.len(),
{
    if pairs.len() == 0 {
        None
    } else {
        match split_once_at(pairs.last(), '=') {
            Some((k, v)) => if k == name {
                Some(percent_decoded(v))
            } else {
                form_value(pairs.drop_last(), name)
            },
            None => form_value(pairs.drop_last(), name),
        }
    }
}

/// `r` holds the parameters of a form.
pub open spec fn holds_form(r: TokenRequest, pairs: Seq<Seq<char>>) -> bool {
    &&& opt_text(r.grant_type) == form_value(pairs, "grant_type"@)
    &&& opt_text(r.code) == form_value(pairs, "code"@)
    &&& opt_text(r.client_id) == form_value(pairs, "client_id"@)
    &&& opt_text(r.client_secret) == form_value(pairs, "client_secret"@)
    &&& opt_text(r.password) == form_value(pairs, "password"@)
    &&& opt_text(r.token) == form_value(pairs, "token"@)
}

/// The names of the parameters differ.
proof fn lemma_form_names_differ()
    ensures
        "grant_type"@.len() == 10,
        "code"@.len() == 4,
        "client_id"@.len() == 9,
        "client_secret"@.len() == 13,
        "password"@.len() == 8,
        "token"@.len() == 5,
{
    reveal_strlit("grant_type");
    reveal_strlit("code");
    reveal_strlit("client_id");
    reveal_strlit("client_secret");
    reveal_strlit("password");
    reveal_strlit("token");
}

/// The request for a token that a form makes.
pub fn parse_form(text: &str) -> (res: TokenRequest)
    ensures
        holds_form(res, split_on(text@, '&')),
        opt_text(res.grant_type) == form_value(split_on(text@, '&'), "grant_type"@),
        opt_text(res.code) == form_value(split_on(text@, '&'), "code"@),
        opt_text(res.client_id) == form_value(split_on(text@, '&'), "client_id"@),
        opt_text(res.client_secret) == form_value(split_on(text@, '&'), "client_secret"@),
        opt_text(res.password) == form_value(split_on(text@, '&'), "password"@),
        opt_text(res.token) == form_value(split_on(text@, '&'), "token"@),
{
    let mut r = TokenRequest {
        grant_type: None,
        code: None,
        client_id: None,
        client_secret: None,
        password: None,
        token: None,
    };
    let pairs = split(text, '&');
    let ghost all = split_on(text@, '&');
    let mut i: usize = 0;
    proof {
        lemma_form_names_differ();
        assert(all.take(0) =~= Seq::<Seq<char>>::empty());
    }
    while i < pairs.len()
        invariant
            i <= pairs@.len(),
            all == texts(pairs@),
            holds_form(r, all.take(i as int)),
            "grant_type"@.len() == 10,
            "code"@.len() == 4,
            "client_id"@.len() == 9,
            "client_secret"@.len() == 13,
            "password"@.len() == 8,
            "token"@.len() == 5,
        decreases pairs@.len() - i,
    {
        proof {
            assert(all.take(i + 1).drop_last() =~= all.take(i as int));
            assert(all.take(i + 1).last() == pairs@[i as int]@);
        }
        if let Some((k, v)) = split_once(pairs[i].as_str(), '=') {
            let value = decode_percent(v.as_str());
            if *k.as_str() == *"grant_type" {
                r.grant_type = Some(value);
            } else if *k.as_str() == *"code" {
                r.code = Some(value);
            } else if *k.as_str() == *"client_id" {
                r.client_id = Some(value);
            } else if *k.as_str() == *"client_secret" {
                r.client_secret = Some(value);
            } else if *k.as_str() == *"password" {
                r.password = Some(value);
            } else if *k.as_str() == *"token" {
                r.token = Some(value);
            }
        }
        i += 1;
    }
    assert(all.take(i as int) =~= all);
    r
}

/// The secret that an `Authorization: Basic` header holds behind the client's
/// id and a `:`, all in base64.
pub open spec fn basic_secret(text: Seq<char>) -> Option<Seq<char>> {
    match base64_bytes(text) {
        Ok(bytes) => if valid_utf8(bytes) {
            match split_once_at(decode_utf8(bytes), ':') {
                Some((_, secret)) => Some(secret),
                None => None,
            }
        } else {
            None
        },
        Err(_) => None,
    }
}

fn secret_of_basic(text: &str) -> (res: Option<String>)
    ensures
        opt_text(res) == basic_secret(text@),
{
    match base64_decode(text, "") {
        Ok(bytes) => match from_utf8(bytes) {
            Some(pair) => match split_once(pair.as_str(), ':') {
                Some((_, secret)) => Some(secret),
                None => None,
            },
            None => None,
        },
        Err(_) => None,
    }
}

/// The secret of a request: that of the client, else a password, else a token,
/// else what an `Authorization: Bearer` or `Authorization: Basic` header holds.
pub open spec fn presented_secret(
    r: TokenRequest,
    authorization: Option<Seq<char>>,
) -> Option<Seq<char>> {
    if r.client_secret is Some {
        opt_text(r.client_secret)
    } else if r.password is Some {
        opt_text(r.password)
    } else if r.token is Some {
        opt_text(r.token)
    } else {
        match authorization {
            Some(h) => match after_prefix(h, "Bearer "@) {
                Some(t) => Some(trimmed(t)),
                None => match after_prefix(h, "Basic "@) {
                    Some(t) => basic_secret(t),
                    None => None,
                },
            },
            None => None,
        }
    }
}

fn secret_of(r: &TokenRequest, authorization: Option<&str>) -> (res: Option<String>)
    ensures
        opt_text(res) == presented_secret(*r, opt_str(authorization)),
        r.client_secret is Some ==> opt_text(res) == Some(r.client_secret->0@),
        r.client_secret is None && r.password is Some ==> opt_text(res) == Some(r.password->0@),
        r.client_secret is None && r.password is None && r.token is Some ==> opt_text(res) == Some(
            r.token->0@,
        ),
        r.client_secret is None && r.password is None && r.token is None && authorization is None
            ==> res is None,
{
    if let Some(s) = &r.client_secret {
        return Some(s.clone());
    }
    if let Some(s) = &r.password {
        return Some(s.clone());
    }
    if let Some(s) = &r.token {
        return Some(s.clone());
    }
    if let Some(h) = authorization {
        if let Some(t) = strip_prefix(h, "Bearer ") {
            return Some(trim(t.as_str()));
        }
        if let Some(t) = strip_prefix(h, "Basic ") {
            return secret_of_basic(t.as_str());
        }
    }
    None
}

/// The request is for the exchange of a code.
pub open spec fn exchanges_code(r: TokenRequest) -> bool {
    opt_text(r.grant_type) == Some("authorization_code"@)
}

impl HttpView {
    /// Whether a request for a token is granted at the time `now`: for a code
    /// that is pending, or for the right secret where one is required.
    pub open spec fn grants(
        self,
        r: TokenRequest,
        authorization: Option<Seq<char>>,
        now: u64,
    ) -> bool {
        if exchanges_code(r) {
            r.code is Some && is_valid_code(self.codes, r.code->0@, now)
        } else {
            self.token.len() == 0 || presented_secret(r, authorization) == Some(self.token)
        }
    }

    /// The server once a request for a token has been answered: a code can be
    /// exchanged once.
    pub open spec fn after_grant(self, r: TokenRequest) -> HttpView {
        if exchanges_code(r) && r.code is Some {
            HttpView { codes: without_code(self.codes, r.code->0@), ..self }
        } else {
            self
        }
    }
}

/// What a granted request is answered.
pub open spec fn granted_body(token: Seq<char>) -> JsonView {
    JsonView::Object(
        with_text(
            with_text(no_members(), "access_token"@, token),
            "token_type"@,
            "Bearer"@,
        ).insert("expires_in"@, unsigned(86400)),
    )
}

/// What a refused request is answered.
pub open spec fn refused_body() -> JsonView {
    JsonView::Object(
        with_text(
            with_text(no_members(), "error"@, "invalid_grant"@),
            "error_description"@,
            "Invalid credentials or authorization code"@,
        ),
    )
}

/// What keeps an SSE stream open.
pub const PING: &'static str = ": ping\n\n";

/// The event that points to the MCP endpoint.
pub open spec fn endpoint_event(token: Seq<char>) -> Seq<char> {
    "event: endpoint\ndata: /mcp"@ + if token.len() == 0 {
        Seq::empty()
    } else {
        "?token="@ + token
    } + "\n\n"@
}

/// The start of an SSE stream.
pub open spec fn sse_reply(token: Seq<char>) -> ReplyView {
    ReplyView {
        status: 200,
        headers: seq![
            ("content-type"@, "text/event-stream"@),
            ("cache-control"@, "no-cache"@),
            ("connection"@, "keep-alive"@),
        ] + cors_headers(),
        body: endpoint_event(token),
    }
}

impl HttpState {
    /// A request for a token.
    pub fn token_endpoint(
        &mut self,
        r: &TokenRequest,
        authorization: Option<&str>,
        now: u64,
    ) -> (res: HttpReply)
        requires
            old(self)@.inv(),
        ensures
            final(self)@.inv(),
            final(self)@ == old(self)@.after_grant(*r),
            res@ == if old(self)@.grants(*r, opt_str(authorization), now) {
                json_reply(200, granted_body(old(self)@.token))
            } else {
                json_reply(400, refused_body())
            },
            final(self)@.token == old(self)@.token,
            forall|c: CodeView| #[trigger]
                final(self)@.codes.contains(c) <==> old(self)@.codes.contains(c) && !(opt_text(
                    r.grant_type,
                ) == Some("authorization_code"@) && opt_text(r.code) == Some(c.code)),
            res.status == 200 <==> {
                if opt_text(r.grant_type) == Some("authorization_code"@) {
                    r.code is Some && is_valid_code(old(self)@.codes, r.code->0@, now)
                } else {
                    old(self)@.token.len() == 0 || presented_secret(*r, opt_str(authorization))
                        == Some(old(self)@.token)
                }
            },
            res.status == 200 ==> res.body@ == json_text(
                JsonView::Object(
                    map![
                        "access_token"@ => JsonView::Text(old(self)@.token),
                        "token_type"@ => JsonView::Text("Bearer"@),
                        "expires_in"@ => unsigned(86400),
                    ],
                ),
            ),
            res.status != 200 ==> res.status == 400 && res.body@ == json_text(
                JsonView::Object(
                    map![
                        "error"@ => JsonView::Text("invalid_grant"@),
                        "error_description"@ => JsonView::Text(
                            "Invalid credentials or authorization code"@,
                        ),
                    ],
                ),
            ),
    {
        let ghost before = self@;
        let exchange = match &r.grant_type {
            Some(g) => *g.as_str() == *"authorization_code",
            None => false,
        };
        let mut valid = false;
        if exchange {
            if let Some(code) = &r.code {
                valid = self.has_valid_code(code.as_str(), now);
                self.remove_code(code.as_str());
                proof {
                    lemma_others_stay_distinct(before.codes, code@);
                    assert forall|c: CodeView| #[trigger]
                        self@.codes.contains(c) <==> before.codes.contains(c) && c.code
                            != code@ by {
                        lemma_other_codes_stay(before.codes, code@, now, c);
                    }
                }
            }
        } else if self.token.as_str().is_empty() {
            valid = true;
        } else if let Some(secret) = secret_of(r, authorization) {
            valid = *secret.as_str() == *self.token.as_str();
        }
        let mut body = new_object();
        if valid {
            put(&mut body, "access_token", of_text(self.token.as_str()));
            put(&mut body, "token_type", of_text("Bearer"));
            put(&mut body, "expires_in", of_u64(86400));
            make_json_reply(200, &body)
        } else {
            put(&mut body, "error", of_text("invalid_grant"));
            put(
                &mut body,
                "error_description",
                of_text("Invalid credentials or authorization code"),
            );
            make_json_reply(400, &body)
        }
    }

    /// The start of a legacy SSE stream: the first event points to the MCP
    /// endpoint.
    pub fn legacy_sse_handler(&self, c: &Credentials) -> (res: HttpReply)
        ensures
            res@ == if self@.admits(*c) {
                sse_reply(self@.token)
            } else {
                unauthorized_reply()
            },
            res.status == 200 <==> self@.token.len() == 0 || presented_token(*c) == Some(self@.token),
            res.status == 200 && self@.token.len() == 0 ==> res.body@
                == "event: endpoint\ndata: /mcp"@ + "\n\n"@,
            res.status == 200 && self@.token.len() > 0 ==> res.body@
                == "event: endpoint\ndata: /mcp"@ + "?token="@ + self@.token + "\n\n"@,
            res.status == 200 ==> res@.headers[0] == ("content-type"@, "text/event-stream"@)
                && res@.headers[1] == ("cache-control"@, "no-cache"@) && res@.headers[2] == (
                "connection"@,
                "keep-alive"@,
            ),
    {
        if !self.is_authed(c) {
            return unauthorized_response();
        }
        let mut event = "event: endpoint\ndata: /mcp".to_owned();
        if !self.token.as_str().is_empty() {
            event.append("?token=");
            event.append(self.token.as_str());
        }
        event.append("\n\n");
        assert(event@ =~= endpoint_event(self@.token));
        assert(self@.token.len() == 0 ==> event@ =~= "event: endpoint\ndata: /mcp"@ + "\n\n"@);
        assert(self@.token.len() > 0 ==> event@ =~= "event: endpoint\ndata: /mcp"@ + "?token="@
            + self@.token + "\n\n"@);
        let mut headers: Vec<(String, String)> = Vec::new();
        assert(header_views(headers@) =~= Seq::<(Seq<char>, Seq<char>)>::empty());
        add_header(&mut headers, "content-type", "text/event-stream");
        add_header(&mut headers, "cache-control", "no-cache");
        add_header(&mut headers, "connection", "keep-alive");
        add_cors_headers(&mut headers);
        let reply = HttpReply { status: 200, headers, body: event };
        assert(reply@ =~= sse_reply(self@.token));
        reply
    }
}

// ---------------------------------------------------------------------------
// Laws of logging in
// ---------------------------------------------------------------------------

/// Taking out a code keeps the others, once each.
proof fn lemma_others_stay_distinct(codes: Seq<CodeView>, code: Seq<char>)
    requires
        are_distinct(codes),
    ensures
        are_distinct(without_code(codes, code)),
        forall|i: int|
            0 <= i < without_code(codes, code).len() ==> codes.contains(
                #[trigger] without_code(codes, code)[i],
            ),
    decreases codes.len(),
{
    if codes.len() > 0 {
        let front = codes.drop_last();
        lemma_others_stay_distinct(front, code);
        lemma_pushed_stay_distinct(codes, without_code(front, code), without_code(codes, code));
    }
}

/// Forgetting expired codes keeps the others, once each.
proof fn lemma_unexpired_stay_distinct(codes: Seq<CodeView>, now: u64)
    requires
        are_distinct(codes),
    ensures
        are_distinct(unexpired(codes, now)),
        forall|i: int|
            0 <= i < unexpired(codes, now).len() ==> codes.contains(
                #[trigger] unexpired(codes, now)[i],
            ),
    decreases codes.len(),
{
    if codes.len() > 0 {
        let front = codes.drop_last();
        lemma_unexpired_stay_distinct(front, now);
        lemma_pushed_stay_distinct(codes, unexpired(front, now), unexpired(codes, now));
    }
}

/// Some of the codes but for the last, with or without the last.
proof fn lemma_pushed_stay_distinct(
    codes: Seq<CodeView>,
    some: Seq<CodeView>,
    all: Seq<CodeView>,
)
    requires
        codes.len() > 0,
        are_distinct(codes),
        are_distinct(some),
        forall|i: int|
            0 <= i < some.len() ==> codes.drop_last().contains(#[trigger] some[i]),
        all == some || all == some.push(codes.last()),
    ensures
        are_distinct(all),
        forall|i: int| 0 <= i < all.len() ==> codes.contains(#[trigger] all[i]),
{
    let front = codes.drop_last();
    assert forall|i: int| 0 <= i < some.len() implies codes.contains(#[trigger] some[i])
        && some[i].code != codes.last().code by {
        let k = choose|k: int| 0 <= k < front.len() && front[k] == some[i];
        assert(codes[k] == some[i]);
        assert(codes[codes.len() - 1] == codes.last());
    }
    assert(codes.contains(codes.last())) by {
        assert(codes[codes.len() - 1] == codes.last());
    }
    assert forall|i: int| 0 <= i < all.len() implies codes.contains(#[trigger] all[i]) by {
        if i < some.len() {
            assert(all[i] == some[i]);
        }
    }
    assert forall|i: int, j: int| 0 <= i < j < all.len() implies (#[trigger] all[i]).code != (
    #[trigger] all[j]).code by {
        assert(all[i] == some[i]);
        if j < some.len() {
            assert(all[j] == some[j]);
        }
    }
}

/// A code that was taken out is not there.
proof fn lemma_code_is_gone(codes: Seq<CodeView>, code: Seq<char>)
    ensures
        forall|i: int|
            0 <= i < without_code(codes, code).len() ==> (#[trigger] without_code(
                codes,
                code,
            )[i]).code != code,
    decreases codes.len(),
{
    if codes.len() > 0 {
        let front = codes.drop_last();
        lemma_code_is_gone(front, code);
        let rest = without_code(front, code);
        let all = without_code(codes, code);
        assert forall|i: int| 0 <= i < all.len() implies (#[trigger] all[i]).code != code by {
            if i < rest.len() {
                assert(all[i] == rest[i]);
            }
        }
    }
}

/// The codes that are pending: taking out a code takes out that one and no other,
/// and forgetting the expired ones forgets those whose time has come and no other.
pub proof fn lemma_other_codes_stay(codes: Seq<CodeView>, code: Seq<char>, now: u64, c: CodeView)
    ensures
        without_code(codes, code).contains(c) <==> codes.contains(c) && c.code != code,
        unexpired(codes, now).contains(c) <==> codes.contains(c) && c.expires_at > now,
    decreases codes.len(),
{
    if codes.len() > 0 {
        let front = codes.drop_last();
        lemma_other_codes_stay(front, code, now, c);
        lemma_last_or_before(codes, c);
        let rest = without_code(front, code);
        if codes.last().code != code {
            let all = without_code(codes, code);
            assert(all.drop_last() =~= rest);
            lemma_last_or_before(all, c);
        }
        let fresh = unexpired(front, now);
        if codes.last().expires_at > now {
            let all = unexpired(codes, now);
            assert(all.drop_last() =~= fresh);
            lemma_last_or_before(all, c);
        }
    }
}

/// A login changes nothing for the codes that others were given.
pub proof fn lemma_submitting_keeps_other_codes(
    server: HttpView,
    form: AuthorizeForm,
    code: Seq<char>,
    now: u64,
)
    ensures
        forall|c: CodeView|
            c.code != code ==> (#[trigger] server.after_submit(form, code, now).codes.contains(c)
                <==> server.codes.contains(c)),
{
    let after = server.after_submit(form, code, now);
    assert forall|c: CodeView| c.code != code implies (#[trigger] after.codes.contains(c)
        <==> server.codes.contains(c)) by {
        lemma_other_codes_stay(server.codes, code, now, c);
        if server.accepts(form) && HttpView::asks_for_code(form) {
            assert(after.codes.drop_last() =~= without_code(server.codes, code));
            lemma_last_or_before(after.codes, c);
        }
    }
}

/// A code is the last, or among those before it.
proof fn lemma_last_or_before(codes: Seq<CodeView>, c: CodeView)
    requires
        codes.len() > 0,
    ensures
        codes.contains(c) <==> codes.drop_last().contains(c) || codes.last() == c,
{
    let front = codes.drop_last();
    if codes.contains(c) {
        let i = choose|i: int| 0 <= i < codes.len() && codes[i] == c;
        if i < front.len() {
            assert(front[i] == c);
        }
    }
    if front.contains(c) {
        let i = choose|i: int| 0 <= i < front.len() && front[i] == c;
        assert(codes[i] == c);
    }
    if codes.last() == c {
        assert(codes[codes.len() - 1] == c);
    }
}

/// A parameter of a form is read by its name: the value is what stands behind the
/// name and a `=` in the last parameter that has the name, with its escapes
/// undone. Where no parameter has the name there is none.
pub proof fn lemma_form_value_is_the_last(
    pairs: Seq<Seq<char>>,
    name: Seq<char>,
    i: int,
    value: Seq<char>,
)
    requires
        !name.contains('='),
        -1 <= i < pairs.len(),
        forall|j: int, w: Seq<char>|
            #![trigger pairs[j], name + seq!['='] + w]
            i < j < pairs.len() ==> pairs[j] != name + seq!['='] + w,
        i >= 0 ==> pairs[i] == name + seq!['='] + value,
    ensures
        i >= 0 ==> form_value(pairs, name) == Some(percent_decoded(value)),
        i < 0 ==> form_value(pairs, name) is None,
    decreases pairs.len(),
{
    if pairs.len() > 0 {
        let n = pairs.len() - 1;
        if i == n {
            lemma_param_parts(pairs[i], name, value);
        } else {
            lemma_parts_make_up_the_param(pairs[n]);
            if let Some((k, v)) = split_once_at(pairs[n], '=') {
                if k == name {
                    assert(pairs[n] == name + seq!['='] + v);
                }
            }
            let front = pairs.drop_last();
            assert forall|j: int, w: Seq<char>|
                #![trigger front[j], name + seq!['='] + w]
                i < j < front.len() implies front[j] != name + seq!['='] + w by {
                assert(front[j] == pairs[j]);
            }
            lemma_form_value_is_the_last(front, name, i, value);
        }
    }
}

/// The secret of a request for a token: that of the client comes first, then a
/// password, then a token, then what the header holds, behind `Bearer ` as it is
/// but for white space, or behind `Basic ` as the text behind the first `:`.
pub proof fn lemma_which_secret_is_presented(
    r: TokenRequest,
    authorization: Option<Seq<char>>,
    rest: Seq<char>,
)
    ensures
        r.client_secret is Some ==> presented_secret(r, authorization) == Some(
            r.client_secret->0@,
        ),
        r.client_secret is None && r.password is Some ==> presented_secret(r, authorization)
            == Some(r.password->0@),
        r.client_secret is None && r.password is None && r.token is Some ==> presented_secret(
            r,
            authorization,
        ) == Some(r.token->0@),
        r.client_secret is None && r.password is None && r.token is None ==> {
            &&& authorization is None ==> presented_secret(r, authorization) is None
            &&& authorization == Some("Bearer "@ + rest) ==> presented_secret(r, authorization)
                == Some(trimmed(rest))
        },
{
    let h = "Bearer "@ + rest;
    let n = "Bearer "@.len() as int;
    assert(h.subrange(0, 0 + n) =~= "Bearer "@);
    assert(h.skip(n) =~= rest);
}

/// An authorization code can be exchanged once: the second time it is refused.
pub proof fn lemma_code_is_exchanged_once(
    server: HttpView,
    r: TokenRequest,
    authorization: Option<Seq<char>>,
    later: u64,
)
    requires
        exchanges_code(r),
    ensures
        !server.after_grant(r).grants(r, authorization, later),
{
    if r.code is Some {
        lemma_code_is_gone(server.codes, r.code->0@);
    }
}

/// A login with the right token gives a code that can be exchanged for as long
/// as it lives, and no longer; one with a wrong token gives none.
pub proof fn lemma_login_gives_a_code(
    server: HttpView,
    form: AuthorizeForm,
    now: u64,
    r: TokenRequest,
    authorization: Option<Seq<char>>,
    later: u64,
)
    requires
        now <= u64::MAX - CODE_LIFETIME,
        HttpView::asks_for_code(form),
        exchanges_code(r),
        r.code is Some,
    ensures
        server.accepts(form) ==> (server.after_submit(form, r.code->0@, now).grants(
            r,
            authorization,
            later,
        ) <==> later < now + CODE_LIFETIME),
        !server.accepts(form) ==> server.after_submit(form, r.code->0@, now) == server,
{
    let code = r.code->0@;
    if server.accepts(form) {
        let after = server.after_submit(form, code, now);
        let rest = without_code(server.codes, code);
        lemma_code_is_gone(server.codes, code);
        assert(after.codes[rest.len() as int].code == code);
        assert forall|i: int| 0 <= i < rest.len() implies (#[trigger] after.codes[i]).code
            != code by {
            assert(after.codes[i] == rest[i]);
        }
    }
}

/// A client that names itself and presents the token by `Authorization: Basic`
/// is granted one.
pub proof fn lemma_basic_secret_is_granted(
    server: HttpView,
    r: TokenRequest,
    client: Seq<char>,
    encoded: Seq<char>,
    now: u64,
)
    requires
        !exchanges_code(r),
        r.client_secret is None,
        r.password is None,
        r.token is None,
        !client.contains(':'),
        decodes_to(encoded, encode_utf8(client + ":"@ + server.token)),
    ensures
        server.grants(r, Some("Basic "@ + encoded), now),
{
    reveal_strlit(":");
    reveal_strlit("Basic ");
    reveal_strlit("Bearer ");
    let pair = client + ":"@ + server.token;
    encode_utf8_valid_utf8(pair);
    encode_utf8_decode_utf8(pair);
    assert(":"@.len() == 1 && ":"@[0] == ':');
    assert forall|j: int| 0 <= j < client.len() implies pair[j] != ':' by {
        assert(pair[j] == client[j]);
    }
    lemma_first_index_is(pair, ':', client.len() as int);
    assert(pair.skip(client.len() as int + 1) =~= server.token);
    let header = "Basic "@ + encoded;
    assert("Basic "@.len() == 6 && "Bearer "@.len() == 7);
    assert("Bearer "@[1] == 'e' && "Basic "@[1] == 'a');
    assert(header[1] == 'a');
    if has_prefix(header, "Bearer "@) {
        assert(header.subrange(0, 7)[1] == 'e');
    }
    assert(header.subrange(0, 6) =~= "Basic "@);
    assert(header.skip(6) =~= encoded);
}

/// A client whose `Authorization: Basic` header holds no `:`, or cannot be read, or
/// another secret, is granted nothing where a token is required.
pub proof fn lemma_other_basic_secrets_are_refused(
    server: HttpView,
    r: TokenRequest,
    text: Seq<char>,
    encoded: Seq<char>,
    now: u64,
)
    requires
        server.token.len() > 0,
        !exchanges_code(r),
        r.client_secret is None,
        r.password is None,
        r.token is None,
        base64_bytes(encoded) is Err || decodes_to(encoded, encode_utf8(text)) && !text.contains(
            ':',
        ),
    ensures
        !server.grants(r, Some("Basic "@ + encoded), now),
{
    reveal_strlit("Basic ");
    reveal_strlit("Bearer ");
    let header = "Basic "@ + encoded;
    assert("Basic "@.len() == 6 && "Bearer "@.len() == 7);
    assert("Bearer "@[1] == 'e' && "Basic "@[1] == 'a');
    assert(header[1] == 'a');
    if has_prefix(header, "Bearer "@) {
        assert(header.subrange(0, 7)[1] == 'e');
    }
    assert(header.subrange(0, 6) =~= "Basic "@);
    assert(header.skip(6) =~= encoded);
    if base64_bytes(encoded) is Ok {
        encode_utf8_valid_utf8(text);
        encode_utf8_decode_utf8(text);
        assert forall|j: int| 0 <= j < text.len() implies text[j] != ':' by {
            assert(text.contains(text[j]));
        }
        lemma_first_index_is(text, ':', text.len() as int);
    }
}

/// Where a token is required, only a request that presents it is let in.
pub proof fn lemma_wrong_token_is_refused(server: HttpView, c: Credentials)
    requires
        server.token.len() > 0,
        presented_token(c) != Some(server.token),
    ensures
        !server.admits(c),
{
}

/// Forgetting expired codes changes nothing for what can be exchanged.
pub proof fn lemma_dropping_expired_codes_is_harmless(
    codes: Seq<CodeView>,
    code: Seq<char>,
    now: u64,
    later: u64,
)
    requires
        now <= later,
    ensures
        is_valid_code(unexpired(codes, now), code, later) <==> is_valid_code(codes, code, later),
    decreases codes.len(),
{
    if codes.len() > 0 {
        let front = codes.drop_last();
        lemma_dropping_expired_codes_is_harmless(front, code, now, later);
        let rest = unexpired(front, now);
        let kept = unexpired(codes, now);
        if is_valid_code(kept, code, later) {
            let i = choose|i: int|
                0 <= i < kept.len() && (#[trigger] kept[i]).code == code && kept[i].expires_at
                    > later;
            if i < rest.len() {
                assert(rest[i] == kept[i]);
                assert(is_valid_code(front, code, later));
                let j = choose|j: int|
                    0 <= j < front.len() && (#[trigger] front[j]).code == code
                        && front[j].expires_at > later;
                assert(codes[j] == front[j]);
            } else {
                assert(codes[codes.len() - 1] == kept[i]);
            }
        }
        if is_valid_code(codes, code, later) {
            let j = choose|j: int|
                0 <= j < codes.len() && (#[trigger] codes[j]).code == code && codes[j].expires_at
                    > later;
            if j < front.len() {
                assert(front[j] == codes[j]);
                assert(is_valid_code(rest, code, later));
                let i = choose|i: int|
                    0 <= i < rest.len() && (#[trigger] rest[i]).code == code && rest[i].expires_at
                        > later;
                assert(kept[i] == rest[i]);
            } else {
                assert(kept[rest.len() as int] == codes[j]);
            }
        }
    }
}

} // verus!
