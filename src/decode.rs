//! Decoding and validating the configuration blob.
use vstd::prelude::*;
use vstd::utf8::{decode_utf8, valid_utf8};
use crate::ledger::opt_view;

verus! {

/// Why a blob gave no version fields.
#[derive(Debug, Clone, Copy, PartialEq, Eq, Structural)]
pub enum DecodeError {
    /// The blob is empty.
    EmptyBlob,
    /// The blob is not valid base64.
    Base64,
    /// The decoded bytes are not UTF-8.
    Utf8,
    /// The decoded text is not a JSON object.
    Json,
    /// `clientVersion` or `buildDate` is absent or not a string.
    MissingField,
}

/// The human-readable description of each error.
pub open spec fn error_message(e: DecodeError) -> Seq<char> {
    match e {
        DecodeError::EmptyBlob => "Base64 content is empty"@,
        DecodeError::Base64 => "Base64 content could not be decoded"@,
        DecodeError::Utf8 => "Decoded content is not valid UTF-8"@,
        DecodeError::Json => "Decoded content is not a JSON object"@,
        DecodeError::MissingField => "clientVersion or buildDate not found"@,
    }
}

impl DecodeError {
    /// The human-readable description of the error.
    pub fn message(&self) -> (r: String)
        ensures
            r@ == error_message(*self),
    {
        let s = match self {
            DecodeError::EmptyBlob => "Base64 content is empty",
            DecodeError::Base64 => "Base64 content could not be decoded",
            DecodeError::Utf8 => "Decoded content is not valid UTF-8",
            DecodeError::Json => "Decoded content is not a JSON object",
            DecodeError::MissingField => "clientVersion or buildDate not found",
        };
        String::from_str(s)
    }
}

/// The version fields of a configuration.
pub struct VersionFields {
    pub client_version: String,
    pub build_date: String,
    pub build_version: Option<String>,
}

pub struct FieldsView {
    pub client_version: Seq<char>,
    pub build_date: Seq<char>,
    pub build_version: Option<Seq<char>>,
}

impl View for VersionFields {
    type V = FieldsView;

    open spec fn view(&self) -> FieldsView {
        FieldsView {
            client_version: self.client_version@,
            build_date: self.build_date@,
            build_version: opt_view(self.build_version),
        }
    }
}

/// The bytes that the standard base64 alphabet, with padding, encodes as `s`;
/// `None` where `s` is no such encoding.
pub uninterp spec fn base64_decoded(s: Seq<char>) -> Option<Seq<u8>>;

/// Whether `text` is a JSON document whose top level is an object.
pub uninterp spec fn json_is_object(text: Seq<char>) -> bool;

/// In the JSON object `text`, the value under `key` where it is a string.
pub uninterp spec fn json_string_member(text: Seq<char>, key: Seq<char>) -> Option<Seq<char>>;

/// Relies on base64's `Engine::decode` with the `STANDARD` engine.
#[verifier::external_body]
fn decode_base64(s: &str) -> (r: Option<Vec<u8>>)
    ensures
        r is Some <==> base64_decoded(s@) is Some,
        r is Some ==> base64_decoded(s@) == Some(r->0@),
{
    base64::Engine::decode(&base64::engine::general_purpose::STANDARD, s).ok()
}

/// Relies on `String::from_utf8`: it succeeds exactly on valid UTF-8.
#[verifier::external_body]
fn utf8_text(b: Vec<u8>) -> (r: Option<String>)
    ensures
        r is Some <==> valid_utf8(b@),
        r is Some ==> r->0@ == decode_utf8(b@),
{
    String::from_utf8(b).ok()
}

/// Relies on serde_json's `from_str` into a `Map`, `Map::get` and
/// `Value::as_str`: `None` where `text` is no JSON object, else the string
/// under `key` where there is one.
#[verifier::external_body]
fn json_string_field(text: &str, key: &str) -> (r: Option<Option<String>>)
    ensures
        r is Some <==> json_is_object(text@),
        r is Some ==> opt_view(r->0) == json_string_member(text@, key@),
{
    let object: serde_json::Map<String, serde_json::Value> = serde_json::from_str(text).ok()?;
    Some(object.get(key).and_then(|v| v.as_str()).map(|s| s.to_string()))
}

/// What the version fields of the JSON object `text` are.
pub open spec fn fields_of_json(text: Seq<char>) -> Result<FieldsView, DecodeError> {
    if !json_is_object(text) {
        Err(DecodeError::Json)
    } else {
        match (json_string_member(text, "clientVersion"@), json_string_member(text, "buildDate"@)) {
            (Some(cv), Some(bd)) => Ok(
                FieldsView {
                    client_version: cv,
                    build_date: bd,
                    build_version: json_string_member(text, "buildVersion"@),
                },
            ),
            _ => Err(DecodeError::MissingField),
        }
    }
}

/// What decoding the blob gives: each stage's failure in order, else the fields.
pub open spec fn decoded_fields(blob: Seq<char>) -> Result<FieldsView, DecodeError> {
    if blob.len() == 0 {
        Err(DecodeError::EmptyBlob)
    } else {
        match base64_decoded(blob) {
            None => Err(DecodeError::Base64),
            Some(bytes) => if !valid_utf8(bytes) {
                Err(DecodeError::Utf8)
            } else {
                fields_of_json(decode_utf8(bytes))
            },
        }
    }
}

pub open spec fn result_view(r: Result<VersionFields, DecodeError>) -> Result<FieldsView, DecodeError> {
    match r {
        Ok(f) => Ok(f@),
        Err(e) => Err(e),
    }
}

/// Reads the version fields of a JSON object's text.
pub fn fields_from_json(text: &str) -> (r: Result<VersionFields, DecodeError>)
    ensures
        result_view(r) == fields_of_json(text@),
{
    let cv = json_string_field(text, "clientVersion");
    let cv = match cv {
        None => return Err(DecodeError::Json),
        Some(v) => v,
    };
    let bd = json_string_field(text, "buildDate");
    let bv = json_string_field(text, "buildVersion");
    match (cv, bd, bv) {
        (Some(c), Some(Some(b)), Some(v)) => Ok(
            VersionFields { client_version: c, build_date: b, build_version: v },
        ),
        _ => Err(DecodeError::MissingField),
    }
}

/// Decodes a configuration blob and reads its version fields. An empty blob,
/// invalid base64, invalid UTF-8, text that is no JSON object, and a missing
/// or non-string `clientVersion` or `buildDate` each fail with their error,
/// checked in that order.
pub fn decode_config(blob: &str) -> (r: Result<VersionFields, DecodeError>)
    ensures
        result_view(r) == decoded_fields(blob@),
{
    if blob.unicode_len() == 0 {
        return Err(DecodeError::EmptyBlob);
    }
    let bytes = match decode_base64(blob) {
        Some(b) => b,
        None => return Err(DecodeError::Base64),
    };
    let text = match utf8_text(bytes) {
        Some(t) => t,
        None => return Err(DecodeError::Utf8),
    };
    fields_from_json(text.as_str())
}

} // verus!
