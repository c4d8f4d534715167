//! Pieces shared by the JSON codecs of patches: reading numbers, flags and
//! text out of JSON values, the JSON forms of timestamps and spans, and the
//! base64 text of binary payloads.

use vstd::prelude::*;
use base64::Engine;
use crate::json::{JsonNumber, JsonValue, JsonView};
use crate::patch::{obj_data_view, Timestamp};

verus! {

/// The value as an unsigned integer, when it is a non-negative integer.
pub open spec fn view_u64(v: JsonView) -> Option<u64> {
    match v {
        JsonView::Number(JsonNumber::PosInt(n)) => Some(n),
        _ => None,
    }
}

/// The value as an unsigned integer, when it is a non-negative integer.
pub fn json_u64(v: &JsonValue) -> (res: Option<u64>)
    ensures
        res == view_u64(v.jv()),
{
    match v {
        JsonValue::Number(JsonNumber::PosInt(n)) => Some(*n),
        _ => None,
    }
}

/// A non-negative integer as JSON.
pub open spec fn num(n: u64) -> JsonView {
    JsonView::Number(JsonNumber::PosInt(n))
}

/// A non-negative integer as JSON.
pub fn num_value(n: u64) -> (res: JsonValue)
    ensures
        res.jv() == num(n),
{
    JsonValue::Number(JsonNumber::PosInt(n))
}

/// The views of JSON values.
pub open spec fn views(items: Seq<JsonValue>) -> Seq<JsonView> {
    items.map_values(|x: JsonValue| x.jv())
}

/// An array of the values.
pub fn array_value(items: Vec<JsonValue>) -> (res: JsonValue)
    ensures
        res.jv() == JsonView::Array(views(items@)),
{
    let res = JsonValue::Array(items);
    assert(res.jv()->Array_0 =~= views(items@));
    res
}

/// A timestamp as JSON, relative to the session `base`: the time alone when
/// the session is `base`, else the pair of session and time.
pub open spec fn ts_json(base: u64, ts: Timestamp) -> JsonView {
    if ts.sid == base {
        num(ts.time)
    } else {
        JsonView::Array(seq![num(ts.sid), num(ts.time)])
    }
}

/// A timestamp read back from JSON, relative to the session `base`.
pub open spec fn json_ts(base: u64, v: JsonView) -> Option<Timestamp> {
    match v {
        JsonView::Number(JsonNumber::PosInt(t)) => Some(Timestamp { sid: base, time: t }),
        JsonView::Array(a) => if a.len() == 2 {
            match (view_u64(a[0]), view_u64(a[1])) {
                (Some(s), Some(t)) => Some(Timestamp { sid: s, time: t }),
                _ => None,
            }
        } else {
            None
        },
        _ => None,
    }
}

/// A timestamp as JSON, relative to the session `base`.
pub fn ts_value(base: u64, ts: Timestamp) -> (res: JsonValue)
    ensures
        res.jv() == ts_json(base, ts),
{
    if ts.sid == base {
        num_value(ts.time)
    } else {
        let v = vec![num_value(ts.sid), num_value(ts.time)];
        let res = array_value(v);
        assert(views(v@) =~= seq![num(ts.sid), num(ts.time)]);
        res
    }
}

/// Reads a timestamp relative to the session `base`.
pub fn read_ts(base: u64, v: &JsonValue) -> (res: Option<Timestamp>)
    ensures
        res == json_ts(base, v.jv()),
{
    match v {
        JsonValue::Number(JsonNumber::PosInt(t)) => Some(Timestamp { sid: base, time: *t }),
        JsonValue::Array(a) => {
            if a.len() != 2 {
                return None;
            }
            let s = json_u64(&a[0]);
            let t = json_u64(&a[1]);
            match (s, t) {
                (Some(s), Some(t)) => Some(Timestamp { sid: s, time: t }),
                _ => None,
            }
        },
        _ => None,
    }
}

/// Every value is a timestamp relative to `base`.
pub open spec fn all_ts(base: u64, items: Seq<JsonView>) -> bool {
    forall|i: int| 0 <= i < items.len() ==> (#[trigger] json_ts(base, items[i])) is Some
}

/// The timestamps of a list, when every value is one.
pub open spec fn json_ts_list(base: u64, items: Seq<JsonView>) -> Option<Seq<Timestamp>> {
    if all_ts(base, items) {
        Some(Seq::new(items.len(), |i: int| json_ts(base, items[i])->0))
    } else {
        None
    }
}

/// Reads a list of timestamps relative to `base`.
pub fn read_ts_list(base: u64, items: &Vec<JsonValue>) -> (res: Option<Vec<Timestamp>>)
    ensures
        match res {
            Some(v) => json_ts_list(base, views(items@)) == Some(v@),
            None => json_ts_list(base, views(items@)) is None,
        },
{
    let ghost iv = views(items@);
    let mut out: Vec<Timestamp> = Vec::new();
    let mut i: usize = 0;
    while i < items.len()
        invariant
            i <= items.len(),
            iv == views(items@),
            out@.len() == i,
            forall|k: int| 0 <= k < i ==> (#[trigger] json_ts(base, iv[k])) == Some(out@[k]),
        decreases items.len() - i,
    {
        match read_ts(base, &items[i]) {
            Some(t) => {
                out.push(t);
            },
            None => {
                assert(json_ts(base, iv[i as int]) is None);
                return None;
            },
        }
        i = i + 1;
    }
    assert(Seq::new(iv.len(), |k: int| json_ts(base, iv[k])->0) =~= out@);
    Some(out)
}

/// The JSON forms of the timestamps.
pub open spec fn ts_jsons(base: u64, ts: Seq<Timestamp>) -> Seq<JsonView> {
    ts.map_values(|t: Timestamp| ts_json(base, t))
}

/// The timestamps as a JSON array.
pub fn ts_list_value(base: u64, ts: &Vec<Timestamp>) -> (res: JsonValue)
    ensures
        res.jv() == JsonView::Array(ts_jsons(base, ts@)),
{
    let mut out: Vec<JsonValue> = Vec::new();
    let mut i: usize = 0;
    while i < ts.len()
        invariant
            i <= ts.len(),
            views(out@) =~= ts_jsons(base, ts@.take(i as int)),
        decreases ts.len() - i,
    {
        let v = ts_value(base, ts[i]);
        let ghost before = out@;
        out.push(v);
        proof {
            assert(ts@.take(i + 1) =~= ts@.take(i as int).push(ts@[i as int]));
            assert(views(out@) =~= views(before).push(v.jv()));
        }
        i = i + 1;
    }
    assert(ts@.take(ts@.len() as int) =~= ts@);
    array_value(out)
}

/// An object entry as JSON: the pair of key and timestamp.
pub open spec fn obj_entry_json(base: u64, e: (Seq<char>, Timestamp)) -> JsonView {
    JsonView::Array(seq![JsonView::String(e.0), ts_json(base, e.1)])
}

/// An object entry read back from JSON.
pub open spec fn json_obj_entry(base: u64, v: JsonView) -> Option<(Seq<char>, Timestamp)> {
    match v {
        JsonView::Array(a) => if a.len() == 2 {
            match (a[0], json_ts(base, a[1])) {
                (JsonView::String(k), Some(t)) => Some((k, t)),
                _ => None,
            }
        } else {
            None
        },
        _ => None,
    }
}

/// Every value is an object entry.
pub open spec fn all_obj_entries(base: u64, items: Seq<JsonView>) -> bool {
    forall|i: int| 0 <= i < items.len() ==> (#[trigger] json_obj_entry(base, items[i])) is Some
}

/// The object entries of a list, when every value is one.
pub open spec fn json_obj_entries(base: u64, items: Seq<JsonView>) -> Option<Seq<(Seq<char>, Timestamp)>> {
    if all_obj_entries(base, items) {
        Some(Seq::new(items.len(), |i: int| json_obj_entry(base, items[i])->0))
    } else {
        None
    }
}

/// Reads an object entry.
fn read_obj_entry(base: u64, v: &JsonValue) -> (res: Option<(String, Timestamp)>)
    ensures
        match res {
            Some(e) => json_obj_entry(base, v.jv()) == Some((e.0@, e.1)),
            None => json_obj_entry(base, v.jv()) is None,
        },
{
    match v {
        JsonValue::Array(a) => {
            if a.len() == 2 {
                let t = read_ts(base, &a[1]);
                assert(v.jv()->Array_0[0] == a@[0].jv());
                match &a[0] {
                    JsonValue::String(k) => match t {
                        Some(t) => Some((k.clone(), t)),
                        None => None,
                    },
                    _ => None,
                }
            } else {
                None
            }
        },
        _ => None,
    }
}

/// Reads a list of object entries.
pub fn read_obj_entries(base: u64, items: &Vec<JsonValue>) -> (res: Option<Vec<(String, Timestamp)>>)
    ensures
        match res {
            Some(v) => json_obj_entries(base, views(items@)) == Some(obj_data_view(v@)),
            None => json_obj_entries(base, views(items@)) is None,
        },
{
    let ghost iv = views(items@);
    let mut out: Vec<(String, Timestamp)> = Vec::new();
    let mut i: usize = 0;
    while i < items.len()
        invariant
            i <= items.len(),
            iv == views(items@),
            out@.len() == i,
            forall|k: int| 0 <= k < i ==> (#[trigger] json_obj_entry(base, iv[k])) == Some(
                (out@[k].0@, out@[k].1),
            ),
        decreases items.len() - i,
    {
        match read_obj_entry(base, &items[i]) {
            Some(e) => {
                out.push(e);
            },
            None => {
                assert(json_obj_entry(base, iv[i as int]) is None);
                return None;
            },
        }
        i = i + 1;
    }
    assert(Seq::new(iv.len(), |k: int| json_obj_entry(base, iv[k])->0) =~= obj_data_view(out@));
    Some(out)
}

/// Object entries as a JSON array of pairs.
pub fn obj_entries_value(base: u64, data: &Vec<(String, Timestamp)>) -> (res: JsonValue)
    ensures
        res.jv() == JsonView::Array(obj_data_view(data@).map_values(|e: (Seq<char>, Timestamp)| obj_entry_json(base, e))),
{
    let ghost dv = obj_data_view(data@);
    let mut out: Vec<JsonValue> = Vec::new();
    let mut i: usize = 0;
    while i < data.len()
        invariant
            i <= data.len(),
            dv == obj_data_view(data@),
            views(out@) =~= dv.take(i as int).map_values(|e: (Seq<char>, Timestamp)| obj_entry_json(base, e)),
        decreases data.len() - i,
    {
        let k = data[i].0.clone();
        let ghost kv = k@;
        let t = ts_value(base, data[i].1);
        let v = vec![JsonValue::String(k), t];
        let row = array_value(v);
        proof {
            assert(views(v@) =~= seq![JsonView::String(kv), ts_json(base, data@[i as int].1)]);
            assert(row.jv() == obj_entry_json(base, dv[i as int]));
        }
        let ghost before = out@;
        out.push(row);
        proof {
            assert(dv.take(i + 1) =~= dv.take(i as int).push(dv[i as int]));
            assert(views(out@) =~= views(before).push(row.jv()));
        }
        i = i + 1;
    }
    assert(dv.take(dv.len() as int) =~= dv);
    array_value(out)
}

/// A vector entry as JSON: the pair of index and timestamp.
pub open spec fn vec_entry_json(base: u64, e: (u64, Timestamp)) -> JsonView {
    JsonView::Array(seq![num(e.0), ts_json(base, e.1)])
}

/// A vector entry read back from JSON.
pub open spec fn json_vec_entry(base: u64, v: JsonView) -> Option<(u64, Timestamp)> {
    match v {
        JsonView::Array(a) => if a.len() == 2 {
            match (view_u64(a[0]), json_ts(base, a[1])) {
                (Some(k), Some(t)) => Some((k, t)),
                _ => None,
            }
        } else {
            None
        },
        _ => None,
    }
}

/// Every value is a vector entry.
pub open spec fn all_vec_entries(base: u64, items: Seq<JsonView>) -> bool {
    forall|i: int| 0 <= i < items.len() ==> (#[trigger] json_vec_entry(base, items[i])) is Some
}

/// The vector entries of a list, when every value is one.
pub open spec fn json_vec_entries(base: u64, items: Seq<JsonView>) -> Option<Seq<(u64, Timestamp)>> {
    if all_vec_entries(base, items) {
        Some(Seq::new(items.len(), |i: int| json_vec_entry(base, items[i])->0))
    } else {
        None
    }
}

/// Reads a vector entry.
fn read_vec_entry(base: u64, v: &JsonValue) -> (res: Option<(u64, Timestamp)>)
    ensures
        res == json_vec_entry(base, v.jv()),
{
    match v {
        JsonValue::Array(a) => {
            if a.len() == 2 {
                let k = json_u64(&a[0]);
                let t = read_ts(base, &a[1]);
                match (k, t) {
                    (Some(k), Some(t)) => Some((k, t)),
                    _ => None,
                }
            } else {
                None
            }
        },
        _ => None,
    }
}

/// Reads a list of vector entries.
pub fn read_vec_entries(base: u64, items: &Vec<JsonValue>) -> (res: Option<Vec<(u64, Timestamp)>>)
    ensures
        match res {
            Some(v) => json_vec_entries(base, views(items@)) == Some(v@),
            None => json_vec_entries(base, views(items@)) is None,
        },
{
    let ghost iv = views(items@);
    let mut out: Vec<(u64, Timestamp)> = Vec::new();
    let mut i: usize = 0;
    while i < items.len()
        invariant
            i <= items.len(),
            iv == views(items@),
            out@.len() == i,
            forall|k: int| 0 <= k < i ==> (#[trigger] json_vec_entry(base, iv[k])) == Some(out@[k]),
        decreases items.len() - i,
    {
        match read_vec_entry(base, &items[i]) {
            Some(e) => {
                out.push(e);
            },
            None => {
                assert(json_vec_entry(base, iv[i as int]) is None);
                return None;
            },
        }
        i = i + 1;
    }
    assert(Seq::new(iv.len(), |k: int| json_vec_entry(base, iv[k])->0) =~= out@);
    Some(out)
}

/// Vector entries as a JSON array of pairs.
pub fn vec_entries_value(base: u64, data: &Vec<(u64, Timestamp)>) -> (res: JsonValue)
    ensures
        res.jv() == JsonView::Array(data@.map_values(|e: (u64, Timestamp)| vec_entry_json(base, e))),
{
    let mut out: Vec<JsonValue> = Vec::new();
    let mut i: usize = 0;
    while i < data.len()
        invariant
            i <= data.len(),
            views(out@) =~= data@.take(i as int).map_values(|e: (u64, Timestamp)| vec_entry_json(base, e)),
        decreases data.len() - i,
    {
        let (k, t) = data[i];
        let v = vec![num_value(k), ts_value(base, t)];
        let row = array_value(v);
        proof {
            assert(views(v@) =~= seq![num(k), ts_json(base, t)]);
        }
        let ghost before = out@;
        out.push(row);
        proof {
            assert(data@.take(i + 1) =~= data@.take(i as int).push(data@[i as int]));
            assert(views(out@) =~= views(before).push(row.jv()));
        }
        i = i + 1;
    }
    assert(data@.take(data@.len() as int) =~= data@);
    array_value(out)
}

/// The text of a JSON value, when it is text.
pub open spec fn view_text(v: JsonView) -> Option<Seq<char>> {
    match v {
        JsonView::String(s) => Some(s),
        _ => None,
    }
}

/// A timestamp reads back from its JSON form.
pub(crate) proof fn lemma_ts_back(base: u64, t: Timestamp)
    ensures
        json_ts(base, ts_json(base, t)) == Some(t),
{
}

/// Timestamps read back from their JSON forms.
pub(crate) proof fn lemma_ts_list_back(base: u64, ts: Seq<Timestamp>)
    ensures
        json_ts_list(base, ts_jsons(base, ts)) == Some(ts),
{
    let items = ts_jsons(base, ts);
    assert forall|i: int| 0 <= i < items.len() implies (#[trigger] json_ts(base, items[i])) == Some(ts[i]) by {
        lemma_ts_back(base, ts[i]);
    }
    assert(Seq::new(items.len(), |i: int| json_ts(base, items[i])->0) =~= ts);
}

/// Object entries read back from their JSON forms.
pub(crate) proof fn lemma_obj_entries_back(base: u64, d: Seq<(Seq<char>, Timestamp)>)
    ensures
        json_obj_entries(base, d.map_values(|e: (Seq<char>, Timestamp)| obj_entry_json(base, e))) == Some(d),
{
    let items = d.map_values(|e: (Seq<char>, Timestamp)| obj_entry_json(base, e));
    assert forall|i: int| 0 <= i < items.len() implies (#[trigger] json_obj_entry(base, items[i])) == Some(d[i]) by {
        lemma_ts_back(base, d[i].1);
    }
    assert(Seq::new(items.len(), |i: int| json_obj_entry(base, items[i])->0) =~= d);
}

/// Vector entries read back from their JSON forms.
pub(crate) proof fn lemma_vec_entries_back(base: u64, d: Seq<(u64, Timestamp)>)
    ensures
        json_vec_entries(base, d.map_values(|e: (u64, Timestamp)| vec_entry_json(base, e))) == Some(d),
{
    let items = d.map_values(|e: (u64, Timestamp)| vec_entry_json(base, e));
    assert forall|i: int| 0 <= i < items.len() implies (#[trigger] json_vec_entry(base, items[i])) == Some(d[i]) by {
        lemma_ts_back(base, d[i].1);
    }
    assert(Seq::new(items.len(), |i: int| json_vec_entry(base, items[i])->0) =~= d);
}

/// The text that `base64`'s standard engine (with padding) makes of the bytes.
pub uninterp spec fn base64_text(bytes: Seq<u8>) -> Seq<char>;

/// The bytes that `base64`'s standard engine reads from the text, when the
/// text is valid.
pub uninterp spec fn base64_bytes(text: Seq<char>) -> Option<Seq<u8>>;

/// How long a byte string may be for its base64 text to have a length that
/// fits in `usize`.
pub open spec fn base64_fits(len: nat) -> bool {
    len <= (usize::MAX / 4) * 3
}

/// Encodes the bytes with `base64::engine::general_purpose::STANDARD`
/// (`Engine::encode`). The contract names the text and claims that the same
/// engine decodes it back into the bytes; the engine panics when the length
/// of the text would not fit in `usize`.
#[verifier::external_body]
pub fn base64_encode(data: &[u8]) -> (res: String)
    requires
        base64_fits(data@.len()),
    ensures
        res@ == base64_text(data@),
        base64_bytes(res@) == Some(data@),
{
    base64::engine::general_purpose::STANDARD.encode(data)
}

/// Decodes the text with `base64::engine::general_purpose::STANDARD`
/// (`Engine::decode`); `None` for text the engine refuses. The contract names
/// the result.
#[verifier::external_body]
pub fn base64_decode(text: &str) -> (res: Option<Vec<u8>>)
    ensures
        match res {
            Some(v) => base64_bytes(text@) == Some(v@),
            None => base64_bytes(text@) is None,
        },
{
    base64::engine::general_purpose::STANDARD.decode(text).ok()
}

} // verus!
