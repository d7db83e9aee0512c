//! The boundary to raw trace text: structured-value decoding through the
//! `json` crate, behind trusted declarations, and the public entry point
//! that parses a trace log and runs the verified ingest over it.
//!
//! Everything the loader's logic reads from a decoded value is converted
//! up front into the library's own plain record representation
//! ([`RawEntry`]). Parsing is deterministic, so what decoding yields is
//! given a name, [`decoded_of`], and the entry point's contract is exact
//! over that name and [`trace_spec`](crate::ingest::trace_spec).

use vstd::prelude::*;

use crate::ingest::{load_records, trace_spec};
use crate::loader::file_view;
use crate::record::{EventRecord, FieldValue, RawEntry};
use crate::trace_types::{message_of, TraceError, TraceFile};

verus! {

/// Outside type: a decoded structured value of the `json` crate.
#[verifier::external_type_specification]
#[verifier::external_body]
pub struct ExJsonValue(json::JsonValue);

/// What decoding trace text yields: the record sequence when the text is
/// well-formed and its top level is an array, else the failure message —
/// the parse error's description, or the fixed not-an-array message.
/// `json::parse` is deterministic, so this is a function of the text
/// alone.
pub uninterp spec fn decoded_of(s: Seq<char>) -> Result<Seq<RawEntry>, Seq<char>>;

/// Relies on json::parse: decodes source text into a structured value or
/// fails, deterministically, with a std error description naming the kind
/// of parse failure. A non-array top level is rejected here with the
/// fixed message; an array's elements are handed to the verified
/// conversion below, so the whole yield is `decoded_of` the text.
#[allow(deprecated)]
#[verifier::external_body]
fn decode_json(source: &str) -> (r: Result<Vec<RawEntry>, String>)
    ensures
        match r {
            Result::Ok(entries) => decoded_of(source@) == Result::<Seq<RawEntry>, Seq<char>>::Ok(
                entries@,
            ),
            Result::Err(msg) => decoded_of(source@) == Result::<Seq<RawEntry>, Seq<char>>::Err(
                msg@,
            ),
        },
{
    let loaded = match json::parse(source) {
        Ok(v) => v,
        Err(e) => return Err(std::error::Error::description(&e).to_owned()),
    };
    if !loaded.is_array() {
        return Err("Value isn't 'array'".to_owned());
    }
    Ok(decode_entries(&loaded))
}

/// Relies on json::JsonValue::is_object: true exactly on an object value.
#[verifier::external_body]
fn value_is_object(v: &json::JsonValue) -> (r: bool) {
    v.is_object()
}

/// Relies on json::JsonValue::as_str: the text of a string value, and
/// nothing for a value of any other shape.
#[verifier::external_body]
fn value_as_str(v: &json::JsonValue) -> (r: Option<String>) {
    v.as_str().map(|s| s.to_owned())
}

/// Relies on json::JsonValue::as_u64: the value of a number the crate
/// reads back as an unsigned 64-bit integer, and nothing for any other
/// value (including numbers it keeps in another form).
#[verifier::external_body]
fn value_as_u64(v: &json::JsonValue) -> (r: Option<u64>) {
    v.as_u64()
}

/// Relies on json::JsonValue::members: the elements of an array value in
/// order, empty for a value of any other shape.
#[verifier::external_body]
fn array_members(v: &json::JsonValue) -> (r: Vec<json::JsonValue>) {
    v.members().cloned().collect()
}

/// Relies on json::JsonValue::entries: an object's key-value pairs in
/// insertion order with distinct keys, empty for a value of any other
/// shape.
#[verifier::external_body]
fn object_entries(v: &json::JsonValue) -> (r: Vec<(String, json::JsonValue)>) {
    v.entries().map(|(k, val)| (k.to_owned(), val.clone())).collect()
}

/// Decode one field value: string values keep their text, numbers that
/// fit an unsigned 64-bit integer keep their value, and everything else
/// is kept only as present-but-other.
fn decode_field(v: &json::JsonValue) -> FieldValue {
    match value_as_str(v) {
        Some(s) => FieldValue::Text(s),
        None => match value_as_u64(v) {
            Some(n) => FieldValue::Unsigned(n),
            None => FieldValue::Other,
        },
    }
}

/// Decode one array element into the library's record representation.
fn decode_entry(v: &json::JsonValue) -> RawEntry {
    if !value_is_object(v) {
        return RawEntry::NonObject;
    }
    let pairs = object_entries(v);
    let mut fields: Vec<(String, FieldValue)> = Vec::new();
    let mut i: usize = 0;
    while i < pairs.len()
        decreases pairs@.len() - i,
    {
        let pair = &pairs[i];
        let value = decode_field(&pair.1);
        fields.push((pair.0.clone(), value));
        i = i + 1;
    }
    RawEntry::Object(EventRecord { fields })
}

/// Decode a top-level array into the library's record representation.
fn decode_entries(v: &json::JsonValue) -> Vec<RawEntry> {
    let members = array_members(v);
    let mut entries: Vec<RawEntry> = Vec::new();
    let mut i: usize = 0;
    while i < members.len()
        decreases members@.len() - i,
    {
        entries.push(decode_entry(&members[i]));
        i = i + 1;
    }
    entries
}

/// Parse trace text and ingest it.
///
/// The result is exact over the decoded form of the text: decoding fails
/// — on malformed text or a non-array top level — if and only if this
/// returns that failure's message; otherwise the ingest of the decoded
/// records decides, and an `Ok` carries exactly the assembled result of
/// [`trace_spec`](crate::ingest::trace_spec).
pub fn load_json(json_str: &str) -> (r: Result<TraceFile, TraceError>)
    ensures
        match decoded_of(json_str@) {
            Result::Err(msg) => r is Err && r->Err_0.spec_message() == msg,
            Result::Ok(entries) => match trace_spec(entries) {
                Result::Ok(fm) => r is Ok && file_view(r->Ok_0) == fm && r->Ok_0.async_events@
                    =~= Seq::<crate::trace_types::TraceEvent>::empty(),
                Result::Err(k) => r is Err && r->Err_0.spec_message() == message_of(k),
            },
        },
{
    let entries = match decode_json(json_str) {
        Ok(v) => v,
        Err(msg) => {
            return Err(TraceError::from_message(msg));
        },
    };
    load_records(entries)
}

} // verus!
