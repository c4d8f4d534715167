//! The compact form of a patch written as CBOR: the JSON of the compact form,
//! written and read by `ciborium` through `serde_json` values.

use vstd::prelude::*;
use serde_json::Value;
use crate::json::{JsonNumber, JsonValue, JsonView};
use crate::patch::Patch;
use crate::patch_builder::ops_view;
use crate::patch_compact_codec::{
    bins_fit, compact_decode_ok, decode_patch_compact, encode_patch_compact, spec_encode_compact, CompactCodecError,
};

verus! {

/// A JSON value of `serde_json`, carried through opaquely.
#[verifier::external_type_specification]
#[verifier::external_body]
pub struct ExSerdeJsonValue(serde_json::Value);

/// Failures of the CBOR form of compact patches.
#[derive(Debug)]
pub enum CompactBinaryCodecError {
    Compact(CompactCodecError),
    InvalidCbor,
}

/// The JSON value that `ciborium::de::from_reader` reads from `data` as a
/// `serde_json` value; `None` where it refuses the bytes.
pub uninterp spec fn cbor_json_value(data: Seq<u8>) -> Option<JsonView>;

/// The bytes that `ciborium::ser::into_writer` writes for the `serde_json`
/// value of `v`; `None` where it refuses the value.
pub uninterp spec fn json_cbor_value(v: JsonView) -> Option<Seq<u8>>;

/// The library's form of a `serde_json` value: one variant for each of
/// `serde_json`'s (a number by the variant that holds it), fields moved over
/// and children converted the same way.
#[verifier::external_body]
fn json_from_serde(v: Value) -> JsonValue {
    match v {
        Value::Null => JsonValue::Null,
        Value::Bool(b) => JsonValue::Bool(b),
        Value::Number(n) => JsonValue::Number(match (n.as_u64(), n.as_i64()) {
            (Some(u), _) => JsonNumber::PosInt(u),
            (None, Some(i)) => JsonNumber::NegInt(i),
            _ => JsonNumber::Float(n.as_f64().map(|x| x.to_bits()).unwrap_or(0)),
        }),
        Value::String(s) => JsonValue::String(s),
        Value::Array(a) => JsonValue::Array(a.into_iter().map(json_from_serde).collect()),
        Value::Object(m) => JsonValue::Object(m.into_iter().map(|(k, x)| (k, json_from_serde(x))).collect()),
    }
}

/// The `serde_json` number of the IEEE-754 double with these bits, read by
/// `ciborium` from the CBOR double holding them (null for one that JSON
/// cannot hold).
#[verifier::external_body]
fn serde_double(bits: u64) -> Value {
    let mut item = vec![0xfbu8];
    item.extend_from_slice(&bits.to_be_bytes());
    ciborium::de::from_reader(item.as_slice()).unwrap_or(Value::Null)
}

/// The `serde_json` form of a library JSON value: one variant for each, a
/// number by its variant, children converted the same way.
#[verifier::external_body]
fn json_to_serde(v: &JsonValue) -> Value {
    match v {
        JsonValue::Null => Value::Null,
        JsonValue::Bool(b) => Value::Bool(*b),
        JsonValue::Number(JsonNumber::PosInt(u)) => Value::from(*u),
        JsonValue::Number(JsonNumber::NegInt(i)) => Value::from(*i),
        JsonValue::Number(JsonNumber::Float(bits)) => serde_double(*bits),
        JsonValue::String(s) => Value::String(s.clone()),
        JsonValue::Array(a) => Value::Array(a.iter().map(json_to_serde).collect()),
        JsonValue::Object(es) => Value::Object(es.iter().map(|(k, x)| (k.clone(), json_to_serde(x))).collect()),
    }
}

/// Reads the first CBOR item of `data` with `ciborium::de::from_reader` into
/// a `serde_json` value. The contract claims that the outcome is a function
/// of the bytes (named `cbor_json_value`).
#[verifier::external_body]
fn read_cbor_json(data: &[u8]) -> (res: Option<JsonValue>)
    ensures
        match res {
            Some(v) => cbor_json_value(data@) == Some(v.jv()),
            None => cbor_json_value(data@) is None,
        },
{
    let v: Value = ciborium::de::from_reader(data).ok()?;
    Some(json_from_serde(v))
}

/// Writes the `serde_json` form of `v` as CBOR with
/// `ciborium::ser::into_writer`. The contract claims that the outcome is a
/// function of the value (named `json_cbor_value`).
#[verifier::external_body]
fn write_cbor_json_value(v: &JsonValue) -> (res: Option<Vec<u8>>)
    ensures
        match res {
            Some(b) => json_cbor_value(v.jv()) == Some(b@),
            None => json_cbor_value(v.jv()) is None,
        },
{
    let mut out = Vec::new();
    ciborium::ser::into_writer(&json_to_serde(v), &mut out).ok()?;
    Some(out)
}

/// Encodes a patch in the compact form and writes that JSON as CBOR.
pub fn encode_patch_compact_binary(patch: &Patch) -> (res: Result<Vec<u8>, CompactBinaryCodecError>)
    requires
        bins_fit(ops_view(patch.spec_ops())),
    ensures
        match res {
            Ok(b) => patch.spec_op_count() != 0 && json_cbor_value(
                spec_encode_compact(patch.spec_sid(), patch.spec_time(), ops_view(patch.spec_ops())),
            ) == Some(b@),
            Err(CompactBinaryCodecError::Compact(e)) => e == CompactCodecError::EmptyPatch && patch.spec_op_count() == 0,
            Err(CompactBinaryCodecError::InvalidCbor) => patch.spec_op_count() != 0 && json_cbor_value(
                spec_encode_compact(patch.spec_sid(), patch.spec_time(), ops_view(patch.spec_ops())),
            ) is None,
        },
{
    let compact = match encode_patch_compact(patch) {
        Ok(v) => v,
        Err(e) => {
            return Err(CompactBinaryCodecError::Compact(e));
        },
    };
    match write_cbor_json_value(&compact) {
        Some(b) => Ok(b),
        None => Err(CompactBinaryCodecError::InvalidCbor),
    }
}

/// Reads CBOR as the JSON of a compact patch and decodes it.
pub fn decode_patch_compact_binary(data: &[u8]) -> (res: Result<Patch, CompactBinaryCodecError>)
    ensures
        match cbor_json_value(data@) {
            None => res matches Err(CompactBinaryCodecError::InvalidCbor),
            Some(v) => match res {
                Ok(p) => compact_decode_ok(v, Ok(p)),
                Err(CompactBinaryCodecError::Compact(e)) => compact_decode_ok(v, Err(e)),
                Err(CompactBinaryCodecError::InvalidCbor) => false,
            },
        },
{
    let compact = match read_cbor_json(data) {
        Some(v) => v,
        None => {
            return Err(CompactBinaryCodecError::InvalidCbor);
        },
    };
    match decode_patch_compact(&compact) {
        Ok(p) => Ok(p),
        Err(e) => Err(CompactBinaryCodecError::Compact(e)),
    }
}

} // verus!
