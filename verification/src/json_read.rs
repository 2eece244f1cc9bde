//! Reading JSON text with serde_json into the library's own model.

use vstd::prelude::*;
use crate::json::{JsonV, JsonValue};
use crate::text::seq_lt;
use crate::parser::{ParseError, byte_len, validate_size, MAX_INPUT_SIZE};

verus! {

#[verifier::external_type_specification]
#[verifier::external_body]
pub struct ExJsonValue(serde_json::Value);

/// The keys of an object's members are strictly increasing (so each occurs
/// once), and so are those of every object inside the value.
pub open spec fn json_keys_ordered(v: JsonV) -> bool
    decreases v,
{
    match v {
        JsonV::Array(a) => forall|i: int| 0 <= i < a.len() ==> json_keys_ordered(#[trigger] a[i]),
        JsonV::Object(m) => {
            &&& forall|i: int, j: int| 0 <= i < j < m.len() ==> seq_lt(#[trigger] m[i].0, #[trigger] m[j].0)
            &&& forall|i: int| 0 <= i < m.len() ==> json_keys_ordered(#[trigger] m[i].1)
        },
        _ => true,
    }
}

/// Whether `serde_json::from_str` accepts the text as a JSON value.
pub uninterp spec fn serde_json_accepts(input: Seq<char>) -> bool;

/// The value `serde_json::from_str` reads from an accepted text, as this
/// library models it (numbers in the text serde_json prints for them,
/// object members in the map's key order).
pub uninterp spec fn serde_json_reading(input: Seq<char>) -> JsonV;

/// The message of the error `serde_json::from_str` gives for a rejected text.
pub uninterp spec fn serde_json_error(input: Seq<char>) -> Seq<char>;

/// One level of `serde_json::Value` after another, into `JsonValue`: the
/// variants map one to one; numbers keep the text serde_json prints for
/// them; arrays and objects keep their order. Used only by
/// `serde_parse_value`, whose contract covers it.
#[verifier::external_body]
fn json_from_serde(v: &serde_json::Value) -> JsonValue {
    match v {
        serde_json::Value::Null => JsonValue::Null,
        serde_json::Value::Bool(b) => JsonValue::Bool(*b),
        serde_json::Value::Number(n) => JsonValue::Number(n.to_string()),
        serde_json::Value::String(s) => JsonValue::Str(s.clone()),
        serde_json::Value::Array(a) => JsonValue::Array(a.iter().map(json_from_serde).collect()),
        serde_json::Value::Object(m) => JsonValue::Object(
            m.iter().map(|(k, x)| (k.clone(), json_from_serde(x))).collect(),
        ),
    }
}

/// What `serde_json::to_string_pretty` prints for a value (two spaces per
/// level), as a function of the value as this library models it.
pub uninterp spec fn serde_json_pretty(v: JsonV) -> Seq<char>;

/// A value that serde_json read, with its model in this library. Only
/// `serde_parse_value` makes one.
pub struct SerdeValue {
    value: serde_json::Value,
    model: Ghost<JsonV>,
}

impl SerdeValue {
    pub closed spec fn model(&self) -> JsonV {
        self.model@
    }
}

/// `serde_json::from_str::<serde_json::Value>`: on success the value and
/// its model in this library, on failure the error's message. The contract
/// names what comes back, as a function of the text alone; an object is a
/// `BTreeMap` by key, so its members come in strictly increasing key order.
#[verifier::external_body]
pub(crate) fn serde_parse_value(input: &str) -> (r: Result<(SerdeValue, JsonValue), String>)
    ensures
        r is Ok == serde_json_accepts(input@),
        r matches Ok(p) ==> p.1@ == serde_json_reading(input@) && p.0.model() == serde_json_reading(input@),
        r is Ok ==> json_keys_ordered(serde_json_reading(input@)),
        r matches Err(m) ==> m@ == serde_json_error(input@),
{
    match serde_json::from_str::<serde_json::Value>(input) {
        Ok(v) => {
            let m = json_from_serde(&v);
            Ok((SerdeValue { value: v, model: Ghost(m@) }, m))
        },
        Err(e) => Err(e.to_string()),
    }
}

/// `serde_json::to_string_pretty` on a value that serde_json read. A
/// `Value` has only string keys and its serialization does not fail, so the
/// text is always given. Whether `from_str` reads it back as the same value
/// is left unsaid: without the `float_roundtrip` feature serde_json parses
/// floats without exact rounding.
#[verifier::external_body]
pub(crate) fn serde_pretty(v: &SerdeValue) -> (r: Result<String, String>)
    ensures
        r is Ok,
        r is Ok ==> r->Ok_0@ == serde_json_pretty(v.model()),
{
    serde_json::to_string_pretty(&v.value).map_err(|e| e.to_string())
}

/// Parses a JSON document. Inputs above `MAX_INPUT_SIZE` bytes are refused
/// before parsing; text that serde_json rejects gives `InvalidJson` with its
/// message.
pub fn parse_json(input: &str) -> (r: Result<JsonValue, ParseError>)
    ensures
        byte_len(input) > MAX_INPUT_SIZE ==> r == Err::<JsonValue, ParseError>(
            ParseError::InputTooLarge { limit: MAX_INPUT_SIZE, actual: byte_len(input) },
        ),
        byte_len(input) <= MAX_INPUT_SIZE ==> {
            &&& r is Ok == serde_json_accepts(input@)
            &&& r matches Ok(v) ==> v@ == serde_json_reading(input@) && json_keys_ordered(v@)
            &&& r matches Err(e) ==> e matches ParseError::InvalidJson(m) && m@ == serde_json_error(input@)
        },
{
    match validate_size(input) {
        Err(e) => {
            return Err(e);
        },
        Ok(()) => {},
    }
    match serde_parse_value(input) {
        Ok((_, v)) => Ok(v),
        Err(m) => Err(ParseError::InvalidJson(m)),
    }
}

} // verus!
