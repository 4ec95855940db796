//! JSON values: what one holds, and the calls into `serde_json` that read and
//! build them.

use vstd::prelude::*;

verus! {

/// `serde_json::Value`.
#[verifier::external_type_specification]
#[verifier::external_body]
pub struct ExValue(serde_json::Value);

/// `serde_json::Map`, the members of a JSON object.
#[verifier::external_type_specification]
#[verifier::external_body]
#[verifier::reject_recursive_types(K)]
#[verifier::reject_recursive_types(V)]
pub struct ExMap<K, V>(serde_json::Map<K, V>);

/// A JSON number: an integer that is not negative, one that is, or a number
/// with a fraction or an exponent, by its text.
pub enum JsonNumber {
    Unsigned(u64),
    Negative(i64),
    Float(Seq<char>),
}

/// What a JSON value holds.
pub enum JsonView {
    Null,
    Bool(bool),
    Number(JsonNumber),
    Text(Seq<char>),
    Array(Seq<JsonView>),
    Object(Map<Seq<char>, JsonView>),
}

/// What a `serde_json::Value` holds.
pub uninterp spec fn json_view(v: serde_json::Value) -> JsonView;

/// The members that a `serde_json::Map` holds.
pub uninterp spec fn object_members(
    m: serde_json::Map<String, serde_json::Value>,
) -> Map<Seq<char>, JsonView>;

/// What `serde_json` reads from a text: a value, or what it says is wrong.
pub uninterp spec fn json_parsed(text: Seq<char>) -> Result<JsonView, Seq<char>>;

/// The compact text that `serde_json` writes for a value.
pub uninterp spec fn json_text(v: JsonView) -> Seq<char>;

// ---------------------------------------------------------------------------
// Views
// ---------------------------------------------------------------------------

/// What each value of a list holds.
pub open spec fn json_views(s: Seq<serde_json::Value>) -> Seq<JsonView> {
    s.map_values(|v: serde_json::Value| json_view(v))
}

/// What an optional value holds.
pub open spec fn opt_json_view(v: Option<serde_json::Value>) -> Option<JsonView> {
    match v {
        Some(v) => Some(json_view(v)),
        None => None,
    }
}

/// The member `key` of an object; a value of another kind has none.
pub open spec fn member(v: JsonView, key: Seq<char>) -> Option<JsonView> {
    match v {
        JsonView::Object(m) => if m.contains_key(key) {
            Some(m[key])
        } else {
            None
        },
        _ => None,
    }
}

/// The member `inner` of the member `outer`.
pub open spec fn member_of(v: JsonView, outer: Seq<char>, inner: Seq<char>) -> Option<JsonView> {
    match member(v, outer) {
        Some(o) => member(o, inner),
        None => None,
    }
}

/// The integer that a value is, where it is one that is not negative.
pub open spec fn as_unsigned(v: Option<JsonView>) -> Option<u64> {
    match v {
        Some(JsonView::Number(JsonNumber::Unsigned(n))) => Some(n),
        _ => None,
    }
}

/// The integer that a value is, where it is one that an `i64` holds.
pub open spec fn as_signed(v: Option<JsonView>) -> Option<i64> {
    match v {
        Some(JsonView::Number(JsonNumber::Unsigned(n))) => if n <= i64::MAX {
            Some(n as i64)
        } else {
            None
        },
        Some(JsonView::Number(JsonNumber::Negative(n))) => Some(n),
        _ => None,
    }
}

/// The text that a value is, where it is one.
pub open spec fn as_text(v: Option<JsonView>) -> Option<Seq<char>> {
    match v {
        Some(JsonView::Text(t)) => Some(t),
        _ => None,
    }
}

/// The truth value that a value is, where it is one.
pub open spec fn as_truth(v: Option<JsonView>) -> Option<bool> {
    match v {
        Some(JsonView::Bool(b)) => Some(b),
        _ => None,
    }
}

/// An integer as a JSON number.
pub open spec fn unsigned(n: u64) -> JsonView {
    JsonView::Number(JsonNumber::Unsigned(n))
}

/// An integer as a JSON number.
pub open spec fn signed(n: i64) -> JsonView {
    JsonView::Number(
        if n < 0 {
            JsonNumber::Negative(n)
        } else {
            JsonNumber::Unsigned(n as u64)
        },
    )
}

/// An optional integer: the number, or null.
pub open spec fn opt_unsigned(n: Option<u64>) -> JsonView {
    match n {
        Some(n) => unsigned(n),
        None => JsonView::Null,
    }
}

/// An optional text: the text, or null.
pub open spec fn opt_text_view(t: Option<String>) -> JsonView {
    match t {
        Some(t) => JsonView::Text(t@),
        None => JsonView::Null,
    }
}

/// An optional truth value: the value, or null.
pub open spec fn opt_bool(b: Option<bool>) -> JsonView {
    match b {
        Some(b) => JsonView::Bool(b),
        None => JsonView::Null,
    }
}

/// The member name under which `serde_json` keeps a text that it does not take
/// apart. An object that has such a member is not read back as an object.
pub open spec fn raw_value_key() -> Seq<char> {
    "$serde_json::private::RawValue"@
}

/// Arrays and objects are nested at most `depth` deep, no object has a member
/// named `raw_value_key`, and there is no number with a fraction or an exponent.
pub open spec fn is_plain(v: JsonView, depth: nat) -> bool
    decreases depth,
{
    match v {
        JsonView::Number(JsonNumber::Float(_)) => false,
        JsonView::Array(s) => depth > 0 && forall|i: int|
            0 <= i < s.len() ==> is_plain(#[trigger] s[i], (depth - 1) as nat),
        JsonView::Object(m) => {
            &&& depth > 0
            &&& !m.contains_key(raw_value_key())
            &&& forall|k: Seq<char>| #[trigger]
                m.contains_key(k) ==> is_plain(m[k], (depth - 1) as nat)
        },
        _ => true,
    }
}

/// `text` is read as `v`.
pub open spec fn reads_as(text: Seq<char>, v: JsonView) -> bool {
    json_parsed(text) == Ok::<JsonView, Seq<char>>(v)
}

/// How deep a plain value may be nested and still be read back.
pub open spec fn readable_depth() -> nat {
    100
}

// ---------------------------------------------------------------------------
// Reading values
// ---------------------------------------------------------------------------

/// `Value::get` with a text: the member of that name of an object.
#[verifier::external_body]
pub(crate) fn get<'a>(v: &'a serde_json::Value, key: &str) -> (res: Option<&'a serde_json::Value>)
    ensures
        match res {
            Some(m) => member(json_view(*v), key@) == Some(json_view(*m)),
            None => member(json_view(*v), key@) is None,
        },
{
    v.get(key)
}

/// `Value::as_u64`: the integer that the value is, where a `u64` holds it.
#[verifier::external_body]
pub(crate) fn as_u64(v: &serde_json::Value) -> (res: Option<u64>)
    ensures
        res == as_unsigned(Some(json_view(*v))),
{
    v.as_u64()
}

/// `Value::as_i64`: the integer that the value is, where an `i64` holds it.
#[verifier::external_body]
pub(crate) fn as_i64(v: &serde_json::Value) -> (res: Option<i64>)
    ensures
        res == as_signed(Some(json_view(*v))),
{
    v.as_i64()
}

/// `Value::as_bool`: the truth value that the value is.
#[verifier::external_body]
pub(crate) fn as_bool(v: &serde_json::Value) -> (res: Option<bool>)
    ensures
        res == as_truth(Some(json_view(*v))),
{
    v.as_bool()
}

/// `Value::as_str`: the text that the value is.
#[verifier::external_body]
pub(crate) fn as_str(v: &serde_json::Value) -> (res: Option<&str>)
    ensures
        crate::text::opt_str(res) == as_text(Some(json_view(*v))),
{
    v.as_str()
}

/// `Value::as_array`: the items of an array; none of a value of another kind.
#[verifier::external_body]
pub(crate) fn as_array(v: &serde_json::Value) -> (res: Option<&Vec<serde_json::Value>>)
    ensures
        match res {
            Some(items) => json_view(*v) == JsonView::Array(json_views(items@)),
            None => !(json_view(*v) is Array),
        },
{
    v.as_array()
}

/// `Value::is_null`: whether the value is null.
#[verifier::external_body]
pub(crate) fn is_null(v: &serde_json::Value) -> (res: bool)
    ensures
        res == (json_view(*v) is Null),
{
    v.is_null()
}

/// `Value::clone`: a value that holds the same.
pub assume_specification[ <serde_json::Value as Clone>::clone ](
    v: &serde_json::Value,
) -> (res: serde_json::Value)
    ensures
        json_view(res) == json_view(*v),
;

/// `Map::iter`: each member of an object once, in some order.
#[verifier::external_body]
pub(crate) fn entries(m: &serde_json::Map<String, serde_json::Value>) -> (res: Vec<
    (String, serde_json::Value),
>)
    ensures
        forall|i: int|
            0 <= i < res@.len() ==> object_members(*m).contains_key((#[trigger] res@[i]).0@)
                && object_members(*m)[res@[i].0@] == json_view(res@[i].1),
        forall|k: Seq<char>| #[trigger]
            object_members(*m).contains_key(k) ==> exists|i: int|
                0 <= i < res@.len() && (#[trigger] res@[i]).0@ == k,
        forall|i: int, j: int|
            0 <= i < j < res@.len() ==> (#[trigger] res@[i]).0@ != (#[trigger] res@[j]).0@,
{
    m.iter().map(|(k, v)| (k.clone(), v.clone())).collect()
}

/// The text of the member `key`, where the value has one that is a text.
pub fn text_member(v: &serde_json::Value, key: &str) -> (res: Option<String>)
    ensures
        crate::text::opt_text(res) == as_text(member(json_view(*v), key@)),
{
    match get(v, key) {
        Some(m) => crate::text::owned(as_str(m)),
        None => None,
    }
}

/// The integer of the member `key`, where the value has one that is a `u64`.
pub fn u64_member(v: &serde_json::Value, key: &str) -> (res: Option<u64>)
    ensures
        res == as_unsigned(member(json_view(*v), key@)),
{
    match get(v, key) {
        Some(m) => as_u64(m),
        None => None,
    }
}

/// Whether the value has a member `key`.
pub fn has_member(v: &serde_json::Value, key: &str) -> (res: bool)
    ensures
        res == (member(json_view(*v), key@) is Some),
{
    get(v, key).is_some()
}

// ---------------------------------------------------------------------------
// Building values
// ---------------------------------------------------------------------------

/// `Value::Null`.
#[verifier::external_body]
pub(crate) fn null() -> (res: serde_json::Value)
    ensures
        json_view(res) == JsonView::Null,
{
    serde_json::Value::Null
}

/// `Value::from` of a `u64`.
#[verifier::external_body]
pub(crate) fn of_u64(n: u64) -> (res: serde_json::Value)
    ensures
        json_view(res) == unsigned(n),
{
    serde_json::Value::from(n)
}

/// `Value::from` of an `i64`.
#[verifier::external_body]
pub(crate) fn of_i64(n: i64) -> (res: serde_json::Value)
    ensures
        json_view(res) == signed(n),
{
    serde_json::Value::from(n)
}

/// `Value::from` of a `bool`.
#[verifier::external_body]
pub(crate) fn of_bool(b: bool) -> (res: serde_json::Value)
    ensures
        json_view(res) == JsonView::Bool(b),
{
    serde_json::Value::from(b)
}

/// `Value::from` of a text.
#[verifier::external_body]
pub(crate) fn of_text(t: &str) -> (res: serde_json::Value)
    ensures
        json_view(res) == JsonView::Text(t@),
{
    serde_json::Value::from(t)
}

/// `Value::from` of a list of values.
#[verifier::external_body]
pub(crate) fn of_array(items: Vec<serde_json::Value>) -> (res: serde_json::Value)
    ensures
        json_view(res) == JsonView::Array(json_views(items@)),
{
    serde_json::Value::from(items)
}

/// `Map::new`, as a value: an object without members.
#[verifier::external_body]
pub(crate) fn new_object() -> (res: serde_json::Value)
    ensures
        json_view(res) == JsonView::Object(Map::empty()),
{
    serde_json::Value::Object(serde_json::Map::new())
}

/// Assignment through `IndexMut` on `Value`: the member `key` of an object
/// becomes `item`, whether it was there before or not.
#[verifier::external_body]
pub(crate) fn put(v: &mut serde_json::Value, key: &str, item: serde_json::Value)
    requires
        json_view(*old(v)) is Object,
    ensures
        json_view(*final(v)) == JsonView::Object(
            json_view(*old(v))->Object_0.insert(key@, json_view(item)),
        ),
{
    v[key] = item;
}

/// An optional integer: the number, or null.
pub fn of_opt_u64(n: Option<u64>) -> (res: serde_json::Value)
    ensures
        json_view(res) == opt_unsigned(n),
        n is None ==> json_view(res) == JsonView::Null,
        n is Some ==> json_view(res) == unsigned(n->0),
{
    match n {
        Some(n) => of_u64(n),
        None => null(),
    }
}

/// An optional text: the text, or null.
pub fn of_opt_text(t: &Option<String>) -> (res: serde_json::Value)
    ensures
        json_view(res) == opt_text_view(*t),
        t is None ==> json_view(res) == JsonView::Null,
        t is Some ==> json_view(res) == JsonView::Text(t->0@),
{
    match t {
        Some(t) => of_text(t),
        None => null(),
    }
}

/// An optional truth value: the value, or null.
pub fn of_opt_bool(b: Option<bool>) -> (res: serde_json::Value)
    ensures
        json_view(res) == opt_bool(b),
        b is None ==> json_view(res) == JsonView::Null,
        b is Some ==> json_view(res) == JsonView::Bool(b->0),
{
    match b {
        Some(b) => of_bool(b),
        None => null(),
    }
}

// ---------------------------------------------------------------------------
// Text
// ---------------------------------------------------------------------------

/// `serde_json::from_str` into a `Value`, with the error by its text.
#[verifier::external_body]
pub(crate) fn parse(text: &str) -> (res: Result<serde_json::Value, String>)
    ensures
        match res {
            Ok(v) => reads_as(text@, json_view(v)),
            Err(e) => json_parsed(text@) == Err::<JsonView, Seq<char>>(e@),
        },
{
    serde_json::from_str(text).map_err(|e| e.to_string())
}

/// `Value::to_string`: the compact text of the value. `serde_json` reads a
/// text that it wrote back as the same value, where the value is not nested
/// too deep, has no member that stands for a raw text, and holds no number with
/// a fraction or an exponent.
#[verifier::external_body]
pub(crate) fn render(v: &serde_json::Value) -> (res: String)
    ensures
        res@ == json_text(json_view(*v)),
        is_plain(json_view(*v), readable_depth()) ==> reads_as(res@, json_view(*v)),
{
    v.to_string()
}

} // verus!
