//! File contents as text: base64 for the wire, UTF-8 for people.

use vstd::prelude::*;
use vstd::utf8::{decode_utf8, valid_utf8};

use base64::Engine;

verus! {

/// The standard base64 text of bytes, with padding.
pub uninterp spec fn base64_text(bytes: Seq<u8>) -> Seq<char>;

/// The bytes that a standard base64 text stands for, or why it stands for none.
pub uninterp spec fn base64_bytes(text: Seq<char>) -> Result<Seq<u8>, Seq<char>>;

/// The text that bytes show, with U+FFFD for what is not UTF-8.
pub uninterp spec fn lossy_text(bytes: Seq<u8>) -> Seq<char>;

/// `text` stands for `bytes`.
pub open spec fn decodes_to(text: Seq<char>, bytes: Seq<u8>) -> bool {
    base64_bytes(text) == Ok::<Seq<u8>, Seq<char>>(bytes)
}

/// `encode` of `base64::engine::general_purpose::STANDARD`; what it writes is
/// read back as the same bytes by the same engine.
#[verifier::external_body]
pub(crate) fn base64_encode(data: &[u8]) -> (res: String)
    ensures
        res@ == base64_text(data@),
        decodes_to(res@, data@),
{
    base64::engine::general_purpose::STANDARD.encode(data)
}

/// `decode` of `base64::engine::general_purpose::STANDARD`, with the error by
/// its text.
#[verifier::external_body]
fn standard_decode(data: &str) -> (res: Result<Vec<u8>, String>)
    ensures
        match res {
            Ok(bytes) => decodes_to(data@, bytes@),
            Err(e) => base64_bytes(data@) == Err::<Seq<u8>, Seq<char>>(e@),
        },
{
    base64::engine::general_purpose::STANDARD.decode(data).map_err(|e| e.to_string())
}

/// What a decoded text is, with `label` before the reason why it is none.
pub open spec fn is_decoded(text: Seq<char>, label: Seq<char>, r: Result<Vec<u8>, String>) -> bool {
    match base64_bytes(text) {
        Ok(bytes) => r is Ok && r->Ok_0@ == bytes,
        Err(e) => r is Err && r->Err_0@ == label + e,
    }
}

/// The bytes of a base64 text; the error says why it is none, after `label`.
pub fn base64_decode(data: &str, label: &str) -> (res: Result<Vec<u8>, String>)
    ensures
        is_decoded(data@, label@, res),
        res is Ok ==> decodes_to(data@, res->Ok_0@),
        res is Err ==> base64_bytes(data@) is Err && res->Err_0@ == label@ + base64_bytes(
            data@,
        )->Err_0,
{
    match standard_decode(data) {
        Ok(bytes) => Ok(bytes),
        Err(e) => {
            let mut message = label.to_owned();
            message.append(e.as_str());
            Err(message)
        },
    }
}

/// `String::from_utf8_lossy`: the text of bytes that are UTF-8, and for others
/// a text in which U+FFFD stands for what is not.
#[verifier::external_body]
pub(crate) fn from_utf8_lossy(bytes: &[u8]) -> (res: String)
    ensures
        res@ == lossy_text(bytes@),
        valid_utf8(bytes@) ==> res@ == decode_utf8(bytes@),
{
    String::from_utf8_lossy(bytes).into_owned()
}

/// `String::from_utf8`: the text of bytes that are UTF-8; none of others.
#[verifier::external_body]
pub(crate) fn from_utf8(bytes: Vec<u8>) -> (res: Option<String>)
    ensures
        match res {
            Some(text) => valid_utf8(bytes@) && text@ == decode_utf8(bytes@),
            None => !valid_utf8(bytes@),
        },
{
    String::from_utf8(bytes).ok()
}

} // verus!
