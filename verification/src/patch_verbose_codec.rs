//! The verbose JSON form of patches: an object with the patch's `id` and
//! its `ops`, one object per operation named by its `op` field, timestamps of
//! the server's session written as bare times.

use vstd::prelude::*;
use crate::json::{JsonValue, JsonView};
use crate::patch::{
    spec_op_id, spec_op_span, ConValue, ConView, DecodedOp, OpView, Patch, PatchError, Timespan, Timestamp,
};
use crate::patch_builder::{
    canon_time, encode_patch_from_ops, off_timeline, on_timeline, ops_view, sat_add, spec_encode_patch,
    PatchBuildError,
};
use crate::patch_compact_codec::{
    bin_fits, bin_roundtrips, bins_fit, bins_roundtrip, compact_keeps, compact_reads_back, lemma_compact_candidate,
    SESSION_SERVER,
};
use crate::patch_builder::patch_bytes;
use crate::patch_json::{
    array_value, base64_bytes, base64_decode, base64_encode, base64_text, json_obj_entries, json_ts,
    json_ts_list, json_u64, json_vec_entries, lemma_obj_entries_back, lemma_ts_back, lemma_ts_list_back,
    lemma_vec_entries_back, num, num_value, obj_entries_value, obj_entry_json, read_obj_entries, read_ts,
    read_ts_list, read_vec_entries, ts_json, ts_jsons, ts_list_value, ts_value, vec_entries_value,
    vec_entry_json, view_text, view_u64, views,
};

verus! {

/// Failures of the verbose codec.
#[derive(Debug, Clone, PartialEq, Eq)]
pub enum VerboseCodecError {
    EmptyPatch,
    InvalidPayload,
    InvalidOperation,
    UnknownOperation(String),
    InvalidBase64,
    Build(PatchBuildError),
    Decode(PatchError),
}

/// The content of a failure of the verbose codec.
pub enum VerboseFault {
    EmptyPatch,
    InvalidPayload,
    InvalidOperation,
    UnknownOperation(Seq<char>),
    InvalidBase64,
    Build(PatchBuildError),
    Decode(PatchError),
}

impl VerboseCodecError {
    /// The content of the failure.
    pub open spec fn fault(&self) -> VerboseFault {
        match self {
            VerboseCodecError::EmptyPatch => VerboseFault::EmptyPatch,
            VerboseCodecError::InvalidPayload => VerboseFault::InvalidPayload,
            VerboseCodecError::InvalidOperation => VerboseFault::InvalidOperation,
            VerboseCodecError::UnknownOperation(s) => VerboseFault::UnknownOperation(s@),
            VerboseCodecError::InvalidBase64 => VerboseFault::InvalidBase64,
            VerboseCodecError::Build(e) => VerboseFault::Build(*e),
            VerboseCodecError::Decode(e) => VerboseFault::Decode(*e),
        }
    }
}

// ---------------------------------------------------------------------------
// Object fields
// ---------------------------------------------------------------------------

/// The value of the first entry with the key.
pub open spec fn view_get(entries: Seq<(Seq<char>, JsonView)>, key: Seq<char>) -> Option<JsonView>
    decreases entries.len(),
{
    if entries.len() == 0 {
        None
    } else if entries[0].0 == key {
        Some(entries[0].1)
    } else {
        view_get(entries.skip(1), key)
    }
}

/// The views of object entries.
pub open spec fn entry_views(m: Seq<(String, JsonValue)>) -> Seq<(Seq<char>, JsonView)> {
    m.map_values(|e: (String, JsonValue)| (e.0@, e.1.jv()))
}

/// Whether the text is the literal.
pub(crate) fn text_is(s: &String, lit: &str) -> (res: bool)
    ensures
        res == (s@ == lit@),
{
    *s == lit.to_owned()
}

/// The value of the first entry with the key.
fn field<'a>(m: &'a Vec<(String, JsonValue)>, key: &str) -> (res: Option<&'a JsonValue>)
    ensures
        match res {
            Some(v) => view_get(entry_views(m@), key@) == Some(v.jv()),
            None => view_get(entry_views(m@), key@) is None,
        },
{
    let ghost ev = entry_views(m@);
    let mut i: usize = 0;
    assert(ev.skip(0) =~= ev);
    while i < m.len()
        invariant
            i <= m.len(),
            ev == entry_views(m@),
            view_get(ev, key@) == view_get(ev.skip(i as int), key@),
        decreases m.len() - i,
    {
        let ghost rest = ev.skip(i as int);
        assert(rest[0] == (m@[i as int].0@, m@[i as int].1.jv()));
        if text_is(&m[i].0, key) {
            return Some(&m[i].1);
        }
        assert(rest.skip(1) =~= ev.skip(i + 1));
        i = i + 1;
    }
    assert(ev.skip(i as int).len() == 0);
    None
}

/// A timestamp relative to the server's session.
pub open spec fn field_ts(m: Seq<(Seq<char>, JsonView)>, key: Seq<char>) -> Option<Timestamp> {
    match view_get(m, key) {
        Some(v) => json_ts(SESSION_SERVER, v),
        None => None,
    }
}

/// The array under the key.
pub open spec fn field_items(m: Seq<(Seq<char>, JsonView)>, key: Seq<char>) -> Option<Seq<JsonView>> {
    match view_get(m, key) {
        Some(JsonView::Array(a)) => Some(a),
        _ => None,
    }
}

/// The text under the key.
pub open spec fn field_text(m: Seq<(Seq<char>, JsonView)>, key: Seq<char>) -> Option<Seq<char>> {
    match view_get(m, key) {
        Some(v) => view_text(v),
        None => None,
    }
}

fn get_ts(m: &Vec<(String, JsonValue)>, key: &str) -> (res: Option<Timestamp>)
    ensures
        res == field_ts(entry_views(m@), key@),
{
    match field(m, key) {
        Some(v) => read_ts(SESSION_SERVER, v),
        None => None,
    }
}

fn get_items<'a>(m: &'a Vec<(String, JsonValue)>, key: &str) -> (res: Option<&'a Vec<JsonValue>>)
    ensures
        match res {
            Some(a) => field_items(entry_views(m@), key@) == Some(views(a@)),
            None => field_items(entry_views(m@), key@) is None,
        },
{
    match field(m, key) {
        Some(JsonValue::Array(a)) => {
            assert(views(a@) =~= JsonValue::Array(*a).jv()->Array_0);
            Some(a)
        },
        _ => None,
    }
}

fn get_text<'a>(m: &'a Vec<(String, JsonValue)>, key: &str) -> (res: Option<&'a String>)
    ensures
        match res {
            Some(s) => field_text(entry_views(m@), key@) == Some(s@),
            None => field_text(entry_views(m@), key@) is None,
        },
{
    match field(m, key) {
        Some(JsonValue::String(s)) => Some(s),
        _ => None,
    }
}

// ---------------------------------------------------------------------------
// Spans
// ---------------------------------------------------------------------------

/// A span as JSON: session, time and length.
pub open spec fn span3_json(s: Timespan) -> JsonView {
    JsonView::Array(seq![num(s.sid), num(s.time), num(s.span)])
}

/// A span read back from JSON.
pub open spec fn json_span3(v: JsonView) -> Option<Timespan> {
    match v {
        JsonView::Array(a) => if a.len() == 3 {
            match (view_u64(a[0]), view_u64(a[1]), view_u64(a[2])) {
                (Some(s), Some(t), Some(n)) => Some(Timespan { sid: s, time: t, span: n }),
                _ => None,
            }
        } else {
            None
        },
        _ => None,
    }
}

/// Every value is a span.
pub open spec fn all_span3(items: Seq<JsonView>) -> bool {
    forall|i: int| 0 <= i < items.len() ==> (#[trigger] json_span3(items[i])) is Some
}

/// The spans of a list, when every value is one.
pub open spec fn json_span3_list(items: Seq<JsonView>) -> Option<Seq<Timespan>> {
    if all_span3(items) {
        Some(Seq::new(items.len(), |i: int| json_span3(items[i])->0))
    } else {
        None
    }
}

fn read_span3(v: &JsonValue) -> (res: Option<Timespan>)
    ensures
        res == json_span3(v.jv()),
{
    match v {
        JsonValue::Array(a) => {
            if a.len() == 3 {
                match (json_u64(&a[0]), json_u64(&a[1]), json_u64(&a[2])) {
                    (Some(s), Some(t), Some(n)) => Some(Timespan { sid: s, time: t, span: n }),
                    _ => None,
                }
            } else {
                None
            }
        },
        _ => None,
    }
}

fn read_span3_list(items: &Vec<JsonValue>) -> (res: Option<Vec<Timespan>>)
    ensures
        match res {
            Some(v) => json_span3_list(views(items@)) == Some(v@),
            None => json_span3_list(views(items@)) is None,
        },
{
    let ghost iv = views(items@);
    let mut out: Vec<Timespan> = Vec::new();
    let mut i: usize = 0;
    while i < items.len()
        invariant
            i <= items.len(),
            iv == views(items@),
            out@.len() == i,
            forall|k: int| 0 <= k < i ==> (#[trigger] json_span3(iv[k])) == Some(out@[k]),
        decreases items.len() - i,
    {
        match read_span3(&items[i]) {
            Some(t) => {
                out.push(t);
            },
            None => {
                assert(json_span3(iv[i as int]) is None);
                return None;
            },
        }
        i = i + 1;
    }
    assert(Seq::new(iv.len(), |k: int| json_span3(iv[k])->0) =~= out@);
    Some(out)
}

fn span3_list_value(spans: &Vec<Timespan>) -> (res: JsonValue)
    ensures
        res.jv() == JsonView::Array(spans@.map_values(|s: Timespan| span3_json(s))),
{
    let mut out: Vec<JsonValue> = Vec::new();
    let mut i: usize = 0;
    while i < spans.len()
        invariant
            i <= spans.len(),
            views(out@) =~= spans@.take(i as int).map_values(|s: Timespan| span3_json(s)),
        decreases spans.len() - i,
    {
        let s = spans[i];
        let v = vec![num_value(s.sid), num_value(s.time), num_value(s.span)];
        let row = array_value(v);
        assert(views(v@) =~= seq![num(s.sid), num(s.time), num(s.span)]);
        let ghost before = out@;
        out.push(row);
        proof {
            assert(spans@.take(i + 1) =~= spans@.take(i as int).push(spans@[i as int]));
            assert(views(out@) =~= views(before).push(row.jv()));
        }
        i = i + 1;
    }
    assert(spans@.take(spans@.len() as int) =~= spans@);
    array_value(out)
}

// ---------------------------------------------------------------------------
// Rows
// ---------------------------------------------------------------------------

/// The opcode that an operation name stands for.
pub open spec fn verbose_code(name: Seq<char>) -> Option<u64> {
    if name == "new_con"@ {
        Some(0)
    } else if name == "new_val"@ {
        Some(1)
    } else if name == "new_obj"@ {
        Some(2)
    } else if name == "new_vec"@ {
        Some(3)
    } else if name == "new_str"@ {
        Some(4)
    } else if name == "new_bin"@ {
        Some(5)
    } else if name == "new_arr"@ {
        Some(6)
    } else if name == "ins_val"@ {
        Some(9)
    } else if name == "ins_obj"@ {
        Some(10)
    } else if name == "ins_vec"@ {
        Some(11)
    } else if name == "ins_str"@ {
        Some(12)
    } else if name == "ins_bin"@ {
        Some(13)
    } else if name == "ins_arr"@ {
        Some(14)
    } else if name == "upd_arr"@ {
        Some(15)
    } else if name == "del"@ {
        Some(16)
    } else if name == "nop"@ {
        Some(17)
    } else {
        None
    }
}

/// The opcode that an operation name stands for.
fn name_code(name: &String) -> (res: Option<u64>)
    ensures
        res == verbose_code(name@),
{
    if text_is(name, "new_con") {
        Some(0)
    } else if text_is(name, "new_val") {
        Some(1)
    } else if text_is(name, "new_obj") {
        Some(2)
    } else if text_is(name, "new_vec") {
        Some(3)
    } else if text_is(name, "new_str") {
        Some(4)
    } else if text_is(name, "new_bin") {
        Some(5)
    } else if text_is(name, "new_arr") {
        Some(6)
    } else if text_is(name, "ins_val") {
        Some(9)
    } else if text_is(name, "ins_obj") {
        Some(10)
    } else if text_is(name, "ins_vec") {
        Some(11)
    } else if text_is(name, "ins_str") {
        Some(12)
    } else if text_is(name, "ins_bin") {
        Some(13)
    } else if text_is(name, "ins_arr") {
        Some(14)
    } else if text_is(name, "upd_arr") {
        Some(15)
    } else if text_is(name, "del") {
        Some(16)
    } else if text_is(name, "nop") {
        Some(17)
    } else {
        None
    }
}

/// The reference of an insertion: `after`, or `obj` where there is no
/// `after`.
pub open spec fn after_ts(m: Seq<(Seq<char>, JsonView)>) -> Option<Timestamp> {
    match view_get(m, "after"@) {
        Some(v) => json_ts(SESSION_SERVER, v),
        None => field_ts(m, "obj"@),
    }
}

/// The operation with identifier `id` and opcode `code` that the fields hold.
pub open spec fn verbose_code_op(id: Timestamp, code: u64, m: Seq<(Seq<char>, JsonView)>) -> Result<
    OpView,
    VerboseFault,
> {
    let bad = Err(VerboseFault::InvalidOperation);
    if code == 0 {
        if view_get(m, "timestamp"@) == Some(JsonView::Bool(true)) {
            match field_ts(m, "value"@) {
                Some(t) => Ok(OpView::NewCon { id, value: ConView::Ref(t) }),
                None => bad,
            }
        } else {
            match view_get(m, "value"@) {
                Some(v) => Ok(OpView::NewCon { id, value: ConView::Known(v) }),
                None => Ok(OpView::NewCon { id, value: ConView::Undef }),
            }
        }
    } else if code == 1 {
        Ok(OpView::NewVal { id })
    } else if code == 2 {
        Ok(OpView::NewObj { id })
    } else if code == 3 {
        Ok(OpView::NewVec { id })
    } else if code == 4 {
        Ok(OpView::NewStr { id })
    } else if code == 5 {
        Ok(OpView::NewBin { id })
    } else if code == 6 {
        Ok(OpView::NewArr { id })
    } else if code == 9 {
        match (field_ts(m, "obj"@), field_ts(m, "value"@)) {
            (Some(o), Some(v)) => Ok(OpView::InsVal { id, obj: o, val: v }),
            _ => bad,
        }
    } else if code == 10 {
        match (field_items(m, "value"@), field_ts(m, "obj"@)) {
            (Some(items), Some(o)) => match json_obj_entries(SESSION_SERVER, items) {
                Some(d) => Ok(OpView::InsObj { id, obj: o, data: d }),
                None => bad,
            },
            _ => bad,
        }
    } else if code == 11 {
        match (field_items(m, "value"@), field_ts(m, "obj"@)) {
            (Some(items), Some(o)) => match json_vec_entries(SESSION_SERVER, items) {
                Some(d) => Ok(OpView::InsVec { id, obj: o, data: d }),
                None => bad,
            },
            _ => bad,
        }
    } else if code == 12 {
        match (field_ts(m, "obj"@), after_ts(m), field_text(m, "value"@)) {
            (Some(o), Some(r), Some(t)) => Ok(OpView::InsStr { id, obj: o, reference: r, data: t }),
            _ => bad,
        }
    } else if code == 13 {
        match (field_ts(m, "obj"@), after_ts(m), field_text(m, "value"@)) {
            (Some(o), Some(r), Some(t)) => match base64_bytes(t) {
                Some(b) => Ok(OpView::InsBin { id, obj: o, reference: r, data: b }),
                None => Err(VerboseFault::InvalidBase64),
            },
            _ => bad,
        }
    } else if code == 14 {
        match (field_ts(m, "obj"@), after_ts(m), field_items(m, "values"@)) {
            (Some(o), Some(r), Some(items)) => match json_ts_list(SESSION_SERVER, items) {
                Some(d) => Ok(OpView::InsArr { id, obj: o, reference: r, data: d }),
                None => bad,
            },
            _ => bad,
        }
    } else if code == 15 {
        match (field_ts(m, "obj"@), field_ts(m, "ref"@), field_ts(m, "value"@)) {
            (Some(o), Some(r), Some(v)) => Ok(OpView::UpdArr { id, obj: o, reference: r, val: v }),
            _ => bad,
        }
    } else if code == 16 {
        match (field_ts(m, "obj"@), field_items(m, "what"@)) {
            (Some(o), Some(items)) => match json_span3_list(items) {
                Some(w) => Ok(OpView::Del { id, obj: o, what: w }),
                None => bad,
            },
            _ => bad,
        }
    } else {
        let len = match view_get(m, "len"@) {
            Some(v) => view_u64(v),
            None => None,
        };
        Ok(
            OpView::Nop {
                id,
                len: match len {
                    Some(n) => n,
                    None => 1,
                },
            },
        )
    }
}

/// The operation with identifier `id` that a row holds.
pub open spec fn verbose_row_op(id: Timestamp, row: JsonView) -> Result<OpView, VerboseFault> {
    match row {
        JsonView::Object(m) => match field_text(m, "op"@) {
            None => Err(VerboseFault::InvalidOperation),
            Some(name) => match verbose_code(name) {
                Some(code) => verbose_code_op(id, code, m),
                None => Err(VerboseFault::UnknownOperation(name)),
            },
        },
        _ => Err(VerboseFault::InvalidOperation),
    }
}

/// The operations of the rows, the first at time `t` and each next one after
/// the span of the one before (saturating); the first failing row's error.
pub open spec fn verbose_rows(sid: u64, t: u64, rows: Seq<JsonView>) -> Result<Seq<OpView>, VerboseFault>
    decreases rows.len(),
{
    if rows.len() == 0 {
        Ok(Seq::empty())
    } else {
        match verbose_row_op(Timestamp { sid, time: t }, rows[0]) {
            Err(e) => Err(e),
            Ok(op) => match verbose_rows(sid, sat_add(t, spec_op_span(op)), rows.skip(1)) {
                Err(e) => Err(e),
                Ok(rest) => Ok(seq![op] + rest),
            },
        }
    }
}

/// The session, time and operations of a verbose patch.
pub open spec fn spec_decode_verbose(v: JsonView) -> Result<(u64, u64, Seq<OpView>), VerboseFault> {
    let bad = Err(VerboseFault::InvalidPayload);
    match v {
        JsonView::Object(m) => match field_items(m, "id"@) {
            Some(a) => if a.len() != 2 {
                bad
            } else {
                match (view_u64(a[0]), view_u64(a[1])) {
                    (Some(sid), Some(time)) => match field_items(m, "ops"@) {
                        Some(rows) => match verbose_rows(sid, time, rows) {
                            Err(e) => Err(e),
                            Ok(ops) => Ok((sid, time, ops)),
                        },
                        None => bad,
                    },
                    _ => bad,
                }
            },
            None => bad,
        },
        _ => bad,
    }
}

fn bad_op<T>() -> (res: Result<T, VerboseCodecError>)
    ensures
        res matches Err(e) && e.fault() == VerboseFault::InvalidOperation,
{
    Err(VerboseCodecError::InvalidOperation)
}

/// Decodes the operation with identifier `id` that a row holds.
#[verifier::rlimit(60)]
pub fn decode_verbose_row(id: Timestamp, row: &JsonValue) -> (res: Result<DecodedOp, VerboseCodecError>)
    ensures
        match res {
            Ok(op) => verbose_row_op(id, row.jv()) == Ok::<OpView, VerboseFault>(op.op_view()),
            Err(e) => verbose_row_op(id, row.jv()) == Err::<OpView, VerboseFault>(e.fault()),
        },
{
    let m = match row {
        JsonValue::Object(m) => m,
        _ => return bad_op(),
    };
    let ghost mv = entry_views(m@);
    assert(row.jv()->Object_0 =~= mv);
    let name = match get_text(m, "op") {
        Some(n) => n,
        None => return bad_op(),
    };
    let code = match name_code(name) {
        Some(c) => c,
        None => return Err(VerboseCodecError::UnknownOperation(name.clone())),
    };
    if code == 0 {
        let is_ref = match field(m, "timestamp") {
            Some(JsonValue::Bool(b)) => *b,
            _ => false,
        };
        assert(is_ref == (view_get(mv, "timestamp"@) == Some(JsonView::Bool(true))));
        if is_ref {
            return match get_ts(m, "value") {
                Some(t) => Ok(DecodedOp::NewCon { id, value: ConValue::Ref(t) }),
                None => bad_op(),
            };
        }
        return match field(m, "value") {
            Some(v) => Ok(DecodedOp::NewCon { id, value: ConValue::Json(v.deep_clone()) }),
            None => Ok(DecodedOp::NewCon { id, value: ConValue::Undef }),
        };
    }
    if code == 1 {
        return Ok(DecodedOp::NewVal { id });
    }
    if code == 2 {
        return Ok(DecodedOp::NewObj { id });
    }
    if code == 3 {
        return Ok(DecodedOp::NewVec { id });
    }
    if code == 4 {
        return Ok(DecodedOp::NewStr { id });
    }
    if code == 5 {
        return Ok(DecodedOp::NewBin { id });
    }
    if code == 6 {
        return Ok(DecodedOp::NewArr { id });
    }
    if code == 9 {
        return match (get_ts(m, "obj"), get_ts(m, "value")) {
            (Some(o), Some(v)) => Ok(DecodedOp::InsVal { id, obj: o, val: v }),
            _ => bad_op(),
        };
    }
    if code == 10 || code == 11 {
        let items = match get_items(m, "value") {
            Some(items) => items,
            None => return bad_op(),
        };
        let o = match get_ts(m, "obj") {
            Some(o) => o,
            None => return bad_op(),
        };
        if code == 10 {
            return match read_obj_entries(SESSION_SERVER, items) {
                Some(d) => Ok(DecodedOp::InsObj { id, obj: o, data: d }),
                None => bad_op(),
            };
        }
        return match read_vec_entries(SESSION_SERVER, items) {
            Some(d) => Ok(DecodedOp::InsVec { id, obj: o, data: d }),
            None => bad_op(),
        };
    }
    if code == 12 || code == 13 || code == 14 {
        let o = match get_ts(m, "obj") {
            Some(o) => o,
            None => return bad_op(),
        };
        let r = match field(m, "after") {
            Some(v) => read_ts(SESSION_SERVER, v),
            None => get_ts(m, "obj"),
        };
        let r = match r {
            Some(r) => r,
            None => return bad_op(),
        };
        if code == 14 {
            return match get_items(m, "values") {
                Some(items) => match read_ts_list(SESSION_SERVER, items) {
                    Some(d) => Ok(DecodedOp::InsArr { id, obj: o, reference: r, data: d }),
                    None => bad_op(),
                },
                None => bad_op(),
            };
        }
        let t = match get_text(m, "value") {
            Some(t) => t,
            None => return bad_op(),
        };
        if code == 12 {
            return Ok(DecodedOp::InsStr { id, obj: o, reference: r, data: t.clone() });
        }
        return match base64_decode(t.as_str()) {
            Some(b) => Ok(DecodedOp::InsBin { id, obj: o, reference: r, data: b }),
            None => Err(VerboseCodecError::InvalidBase64),
        };
    }
    if code == 15 {
        return match (get_ts(m, "obj"), get_ts(m, "ref"), get_ts(m, "value")) {
            (Some(o), Some(r), Some(v)) => Ok(DecodedOp::UpdArr { id, obj: o, reference: r, val: v }),
            _ => bad_op(),
        };
    }
    if code == 16 {
        let o = match get_ts(m, "obj") {
            Some(o) => o,
            None => return bad_op(),
        };
        return match get_items(m, "what") {
            Some(items) => match read_span3_list(items) {
                Some(w) => Ok(DecodedOp::Del { id, obj: o, what: w }),
                None => bad_op(),
            },
            None => bad_op(),
        };
    }
    let len = match field(m, "len") {
        Some(v) => json_u64(v),
        None => None,
    };
    Ok(
        DecodedOp::Nop {
            id,
            len: match len {
                Some(n) => n,
                None => 1,
            },
        },
    )
}

/// `acc` followed by the operations of `rest`, or the error of `rest`.
pub open spec fn chain(acc: Seq<OpView>, rest: Result<Seq<OpView>, VerboseFault>) -> Result<
    Seq<OpView>,
    VerboseFault,
> {
    match rest {
        Err(e) => Err(e),
        Ok(r) => Ok(acc + r),
    }
}

/// Decodes the session, time and operations of a verbose patch; each
/// operation gets the identifier that its place in the patch asks.
pub fn decode_verbose_ops(verbose: &JsonValue) -> (res: Result<(u64, u64, Vec<DecodedOp>), VerboseCodecError>)
    ensures
        match res {
            Ok((sid, time, ops)) => spec_decode_verbose(verbose.jv()) == Ok::<
                (u64, u64, Seq<OpView>),
                VerboseFault,
            >((sid, time, ops_view(ops@))),
            Err(e) => spec_decode_verbose(verbose.jv()) == Err::<(u64, u64, Seq<OpView>), VerboseFault>(
                e.fault(),
            ),
        },
{
    let m = match verbose {
        JsonValue::Object(m) => m,
        _ => return Err(VerboseCodecError::InvalidPayload),
    };
    let ghost mv = entry_views(m@);
    assert(verbose.jv()->Object_0 =~= mv);
    let id_a = match get_items(m, "id") {
        Some(a) => a,
        None => return Err(VerboseCodecError::InvalidPayload),
    };
    if id_a.len() != 2 {
        return Err(VerboseCodecError::InvalidPayload);
    }
    let sid = match json_u64(&id_a[0]) {
        Some(s) => s,
        None => return Err(VerboseCodecError::InvalidPayload),
    };
    let time = match json_u64(&id_a[1]) {
        Some(t) => t,
        None => return Err(VerboseCodecError::InvalidPayload),
    };
    let rows = match get_items(m, "ops") {
        Some(r) => r,
        None => return Err(VerboseCodecError::InvalidPayload),
    };
    let ghost rv = views(rows@);
    let mut ops: Vec<DecodedOp> = Vec::new();
    let mut op_time = time;
    let mut i: usize = 0;
    assert(ops_view(ops@) =~= Seq::<OpView>::empty());
    assert(rv.skip(0) =~= rv);
    assert(Seq::<OpView>::empty() + Seq::<OpView>::empty() =~= Seq::<OpView>::empty());
    while i < rows.len()
        invariant
            i <= rows.len(),
            rv == views(rows@),
            spec_decode_verbose(verbose.jv()) == match verbose_rows(sid, time, rv) {
                Err(e) => Err(e),
                Ok(ops) => Ok::<(u64, u64, Seq<OpView>), VerboseFault>((sid, time, ops)),
            },
            chain(ops_view(ops@), verbose_rows(sid, op_time, rv.skip(i as int))) == verbose_rows(sid, time, rv),
        decreases rows.len() - i,
    {
        let ghost rest = rv.skip(i as int);
        assert(rest[0] == rows@[i as int].jv());
        assert(rest.skip(1) =~= rv.skip(i + 1));
        let id = Timestamp { sid, time: op_time };
        let op = match decode_verbose_row(id, &rows[i]) {
            Ok(op) => op,
            Err(e) => {
                assert(verbose_rows(sid, op_time, rest) == Err::<Seq<OpView>, VerboseFault>(e.fault()));
                return Err(e);
            },
        };
        let ghost before = ops@;
        let span = op.span();
        op_time = op_time.saturating_add(span);
        ops.push(op);
        proof {
            assert(ops_view(ops@) =~= ops_view(before).push(op.op_view()));
            let r2 = verbose_rows(sid, op_time, rv.skip(i + 1));
            match r2 {
                Ok(x) => {
                    assert(ops_view(before) + (seq![op.op_view()] + x) =~= ops_view(ops@) + x);
                },
                Err(_) => {},
            }
        }
        i = i + 1;
    }
    proof {
        assert(rv.skip(i as int) =~= Seq::<JsonView>::empty());
        assert(ops_view(ops@) + Seq::<OpView>::empty() =~= ops_view(ops@));
    }
    Ok((sid, time, ops))
}

/// Decodes a verbose patch: its operations, encoded as a binary patch and
/// decoded back.
pub fn decode_patch_verbose(verbose: &JsonValue) -> (res: Result<Patch, VerboseCodecError>)
    ensures
        match spec_decode_verbose(verbose.jv()) {
            Err(e) => res matches Err(f) && f.fault() == e,
            Ok((sid, time, ops)) => match spec_encode_patch(sid, time, ops) {
                Err(e) => res == Err::<Patch, VerboseCodecError>(VerboseCodecError::Build(e)),
                Ok(bytes) => match res {
                    Ok(p) => Patch::from_binary_outcome(bytes, Ok(p)),
                    Err(VerboseCodecError::Decode(e)) => Patch::from_binary_outcome(bytes, Err(e)),
                    Err(_) => false,
                },
            },
        },
        forall|s: u64, t: u64, ops: Seq<OpView>| #![trigger spec_encode_verbose(s, t, ops)]
            verbose.jv() == spec_encode_verbose(s, t, ops) && compact_reads_back(s, t, ops) ==> (res matches Ok(p)
                && p.spec_sid() == s && p.spec_time() == t && ops_view(p.spec_ops()) == ops),
{
    let (sid, time, ops) = match decode_verbose_ops(verbose) {
        Ok(d) => d,
        Err(e) => {
            proof {
                assert forall|s: u64, t: u64, o: Seq<OpView>| #![trigger spec_encode_verbose(s, t, o)]
                    verbose.jv() == spec_encode_verbose(s, t, o) && compact_reads_back(s, t, o) implies false by {
                    lemma_verbose_roundtrip(s, t, o);
                }
            }
            return Err(e);
        },
    };
    let bytes = match encode_patch_from_ops(sid, time, ops.as_slice()) {
        Ok(b) => b,
        Err(e) => {
            proof {
                assert forall|s: u64, t: u64, o: Seq<OpView>| #![trigger spec_encode_verbose(s, t, o)]
                    verbose.jv() == spec_encode_verbose(s, t, o) && compact_reads_back(s, t, o) implies false by {
                    lemma_verbose_roundtrip(s, t, o);
                    lemma_compact_candidate(s, t, o);
                }
            }
            return Err(VerboseCodecError::Build(e));
        },
    };
    proof {
        assert forall|s: u64, t: u64, o: Seq<OpView>| #![trigger spec_encode_verbose(s, t, o)]
            verbose.jv() == spec_encode_verbose(s, t, o) && compact_reads_back(s, t, o) implies s == sid && t == time
            && o == ops_view(ops@) && bytes@ == patch_bytes(s, t, o) by {
            lemma_verbose_roundtrip(s, t, o);
            lemma_compact_candidate(s, t, o);
        }
    }
    match Patch::from_binary(bytes.as_slice()) {
        Ok(p) => Ok(p),
        Err(e) => Err(VerboseCodecError::Decode(e)),
    }
}

// ---------------------------------------------------------------------------
// Encoding
// ---------------------------------------------------------------------------

/// An object of the entries.
fn object_value(entries: Vec<(String, JsonValue)>) -> (res: JsonValue)
    ensures
        res.jv() == JsonView::Object(entry_views(entries@)),
{
    let res = JsonValue::Object(entries);
    assert(res.jv()->Object_0 =~= entry_views(entries@));
    res
}

/// An entry with the key.
fn entry(key: &str, v: JsonValue) -> (res: (String, JsonValue))
    ensures
        res.0@ == key@,
        res.1 == v,
{
    (key.to_owned(), v)
}

/// The `op` entry naming the operation.
fn op_entry(name: &str) -> (res: (String, JsonValue))
    ensures
        res.0@ == "op"@,
        res.1.jv() == JsonView::String(name@),
{
    ("op".to_owned(), JsonValue::String(name.to_owned()))
}

/// The `op` entry naming the operation.
pub open spec fn op_named(name: Seq<char>) -> (Seq<char>, JsonView) {
    ("op"@, JsonView::String(name))
}

/// The object of an operation.
pub open spec fn verbose_row(op: OpView) -> JsonView {
    let ts = |t: Timestamp| ts_json(SESSION_SERVER, t);
    JsonView::Object(
        match op {
            OpView::NewCon { value, .. } => match value {
                ConView::Known(j) => seq![op_named("new_con"@), ("value"@, j)],
                ConView::Ref(t) => seq![
                    op_named("new_con"@),
                    ("timestamp"@, JsonView::Bool(true)),
                    ("value"@, ts(t)),
                ],
                _ => seq![op_named("new_con"@)],
            },
            OpView::NewVal { .. } => seq![op_named("new_val"@)],
            OpView::NewObj { .. } => seq![op_named("new_obj"@)],
            OpView::NewVec { .. } => seq![op_named("new_vec"@)],
            OpView::NewStr { .. } => seq![op_named("new_str"@)],
            OpView::NewBin { .. } => seq![op_named("new_bin"@)],
            OpView::NewArr { .. } => seq![op_named("new_arr"@)],
            OpView::InsVal { obj, val, .. } => seq![op_named("ins_val"@), ("obj"@, ts(obj)), ("value"@, ts(val))],
            OpView::InsObj { obj, data, .. } => seq![
                op_named("ins_obj"@),
                ("obj"@, ts(obj)),
                (
                    "value"@,
                    JsonView::Array(
                        data.map_values(|e: (Seq<char>, Timestamp)| obj_entry_json(SESSION_SERVER, e)),
                    ),
                ),
            ],
            OpView::InsVec { obj, data, .. } => seq![
                op_named("ins_vec"@),
                ("obj"@, ts(obj)),
                ("value"@, JsonView::Array(data.map_values(|e: (u64, Timestamp)| vec_entry_json(SESSION_SERVER, e)))),
            ],
            OpView::InsStr { obj, reference, data, .. } => seq![
                op_named("ins_str"@),
                ("obj"@, ts(obj)),
                ("after"@, ts(reference)),
                ("value"@, JsonView::String(data)),
            ],
            OpView::InsBin { obj, reference, data, .. } => seq![
                op_named("ins_bin"@),
                ("obj"@, ts(obj)),
                ("after"@, ts(reference)),
                ("value"@, JsonView::String(base64_text(data))),
            ],
            OpView::InsArr { obj, reference, data, .. } => seq![
                op_named("ins_arr"@),
                ("obj"@, ts(obj)),
                ("after"@, ts(reference)),
                ("values"@, JsonView::Array(ts_jsons(SESSION_SERVER, data))),
            ],
            OpView::UpdArr { obj, reference, val, .. } => seq![
                op_named("upd_arr"@),
                ("obj"@, ts(obj)),
                ("ref"@, ts(reference)),
                ("value"@, ts(val)),
            ],
            OpView::Del { obj, what, .. } => seq![
                op_named("del"@),
                ("obj"@, ts(obj)),
                ("what"@, JsonView::Array(what.map_values(|w: Timespan| span3_json(w)))),
            ],
            OpView::Nop { len, .. } => if len > 1 {
                seq![op_named("nop"@), ("len"@, num(len))]
            } else {
                seq![op_named("nop"@)]
            },
        },
    )
}

/// The verbose form of a patch of session `sid` starting at `time`.
pub open spec fn spec_encode_verbose(sid: u64, time: u64, ops: Seq<OpView>) -> JsonView {
    JsonView::Object(
        seq![
            ("id"@, JsonView::Array(seq![num(sid), num(time)])),
            ("ops"@, JsonView::Array(ops.map_values(|o: OpView| verbose_row(o)))),
        ],
    )
}

/// Builds the object of an operation.
#[verifier::rlimit(60)]
pub fn verbose_row_value(op: &DecodedOp) -> (res: JsonValue)
    requires
        bin_fits(op.op_view()),
    ensures
        res.jv() == verbose_row(op.op_view()),
        bin_roundtrips(op.op_view()),
{
    let ghost ov = op.op_view();
    let b = SESSION_SERVER;
    let v = match op {
        DecodedOp::NewCon { value, .. } => match value {
            ConValue::Json(j) => vec![op_entry("new_con"), entry("value", j.deep_clone())],
            ConValue::Ref(t) => vec![
                op_entry("new_con"),
                entry("timestamp", JsonValue::Bool(true)),
                entry("value", ts_value(b, *t)),
            ],
            ConValue::Undef => vec![op_entry("new_con")],
        },
        DecodedOp::NewVal { .. } => vec![op_entry("new_val")],
        DecodedOp::NewObj { .. } => vec![op_entry("new_obj")],
        DecodedOp::NewVec { .. } => vec![op_entry("new_vec")],
        DecodedOp::NewStr { .. } => vec![op_entry("new_str")],
        DecodedOp::NewBin { .. } => vec![op_entry("new_bin")],
        DecodedOp::NewArr { .. } => vec![op_entry("new_arr")],
        DecodedOp::InsVal { obj, val, .. } => vec![
            op_entry("ins_val"),
            entry("obj", ts_value(b, *obj)),
            entry("value", ts_value(b, *val)),
        ],
        DecodedOp::InsObj { obj, data, .. } => vec![
            op_entry("ins_obj"),
            entry("obj", ts_value(b, *obj)),
            entry("value", obj_entries_value(b, data)),
        ],
        DecodedOp::InsVec { obj, data, .. } => vec![
            op_entry("ins_vec"),
            entry("obj", ts_value(b, *obj)),
            entry("value", vec_entries_value(b, data)),
        ],
        DecodedOp::InsStr { obj, reference, data, .. } => vec![
            op_entry("ins_str"),
            entry("obj", ts_value(b, *obj)),
            entry("after", ts_value(b, *reference)),
            entry("value", JsonValue::String(data.clone())),
        ],
        DecodedOp::InsBin { obj, reference, data, .. } => vec![
            op_entry("ins_bin"),
            entry("obj", ts_value(b, *obj)),
            entry("after", ts_value(b, *reference)),
            entry("value", JsonValue::String(base64_encode(data.as_slice()))),
        ],
        DecodedOp::InsArr { obj, reference, data, .. } => vec![
            op_entry("ins_arr"),
            entry("obj", ts_value(b, *obj)),
            entry("after", ts_value(b, *reference)),
            entry("values", ts_list_value(b, data)),
        ],
        DecodedOp::UpdArr { obj, reference, val, .. } => vec![
            op_entry("upd_arr"),
            entry("obj", ts_value(b, *obj)),
            entry("ref", ts_value(b, *reference)),
            entry("value", ts_value(b, *val)),
        ],
        DecodedOp::Del { obj, what, .. } => vec![
            op_entry("del"),
            entry("obj", ts_value(b, *obj)),
            entry("what", span3_list_value(what)),
        ],
        DecodedOp::Nop { len, .. } => if *len > 1 {
            vec![op_entry("nop"), entry("len", num_value(*len))]
        } else {
            vec![op_entry("nop")]
        },
    };
    let res = object_value(v);
    assert(entry_views(v@) =~= verbose_row(ov)->Object_0);
    res
}

/// Encodes a patch in the verbose form; a patch without operations is
/// refused.
pub fn encode_patch_verbose(patch: &Patch) -> (res: Result<JsonValue, VerboseCodecError>)
    requires
        bins_fit(ops_view(patch.spec_ops())),
    ensures
        match res {
            Ok(v) => patch.spec_op_count() != 0 && v.jv() == spec_encode_verbose(
                patch.spec_sid(),
                patch.spec_time(),
                ops_view(patch.spec_ops()),
            ) && bins_roundtrip(ops_view(patch.spec_ops())),
            Err(e) => e == VerboseCodecError::EmptyPatch && patch.spec_op_count() == 0,
        },
{
    let (sid, time) = match patch.id() {
        Some(id) => id,
        None => return Err(VerboseCodecError::EmptyPatch),
    };
    let ops = patch.decoded_ops();
    let ghost ov = ops_view(ops@);
    let mut out: Vec<JsonValue> = Vec::new();
    let mut i: usize = 0;
    while i < ops.len()
        invariant
            i <= ops.len(),
            ov == ops_view(ops@),
            bins_fit(ov),
            views(out@) =~= ov.take(i as int).map_values(|o: OpView| verbose_row(o)),
            forall|k: int| 0 <= k < i ==> #[trigger] bin_roundtrips(ov[k]),
        decreases ops.len() - i,
    {
        assert(bin_fits(ov[i as int]));
        let row = verbose_row_value(&ops[i]);
        let ghost before = out@;
        out.push(row);
        proof {
            assert(ov.take(i + 1) =~= ov.take(i as int).push(ov[i as int]));
            assert(views(out@) =~= views(before).push(row.jv()));
        }
        i = i + 1;
    }
    assert(ov.take(ov.len() as int) =~= ov);
    let id = vec![num_value(sid), num_value(time)];
    assert(views(id@) =~= seq![num(sid), num(time)]);
    let root = vec![entry("id", array_value(id)), entry("ops", array_value(out))];
    let res = object_value(root);
    assert(entry_views(root@) =~= spec_encode_verbose(sid, time, ov)->Object_0);
    Ok(res)
}

// ---------------------------------------------------------------------------
// Round trip
// ---------------------------------------------------------------------------

proof fn lemma_span3_back(w: Seq<Timespan>)
    ensures
        json_span3_list(w.map_values(|s: Timespan| span3_json(s))) == Some(w),
{
    let items = w.map_values(|s: Timespan| span3_json(s));
    assert forall|i: int| 0 <= i < items.len() implies (#[trigger] json_span3(items[i])) == Some(w[i]) by {}
    assert(Seq::new(items.len(), |i: int| json_span3(items[i])->0) =~= w);
}

/// The names of the operations stand for their opcodes.
proof fn lemma_names()
    ensures
        verbose_code("new_con"@) == Some(0u64),
        verbose_code("new_val"@) == Some(1u64),
        verbose_code("new_obj"@) == Some(2u64),
        verbose_code("new_vec"@) == Some(3u64),
        verbose_code("new_str"@) == Some(4u64),
        verbose_code("new_bin"@) == Some(5u64),
        verbose_code("new_arr"@) == Some(6u64),
        verbose_code("ins_val"@) == Some(9u64),
        verbose_code("ins_obj"@) == Some(10u64),
        verbose_code("ins_vec"@) == Some(11u64),
        verbose_code("ins_str"@) == Some(12u64),
        verbose_code("ins_bin"@) == Some(13u64),
        verbose_code("ins_arr"@) == Some(14u64),
        verbose_code("upd_arr"@) == Some(15u64),
        verbose_code("del"@) == Some(16u64),
        verbose_code("nop"@) == Some(17u64),
{
    reveal_strlit("new_con");
    reveal_strlit("new_val");
    reveal_strlit("new_obj");
    reveal_strlit("new_vec");
    reveal_strlit("new_str");
    reveal_strlit("new_bin");
    reveal_strlit("new_arr");
    reveal_strlit("ins_val");
    reveal_strlit("ins_obj");
    reveal_strlit("ins_vec");
    reveal_strlit("ins_str");
    reveal_strlit("ins_bin");
    reveal_strlit("ins_arr");
    reveal_strlit("upd_arr");
    reveal_strlit("del");
    reveal_strlit("nop");
    assert("new_val"@[4] != "new_con"@[4]);
    assert("new_obj"@[4] != "new_con"@[4]);
    assert("new_obj"@[4] != "new_val"@[4]);
    assert("new_vec"@[4] != "new_con"@[4]);
    assert("new_vec"@[5] != "new_val"@[5]);
    assert("new_vec"@[4] != "new_obj"@[4]);
    assert("new_str"@[4] != "new_con"@[4]);
    assert("new_str"@[4] != "new_val"@[4]);
    assert("new_str"@[4] != "new_obj"@[4]);
    assert("new_str"@[4] != "new_vec"@[4]);
    assert("new_bin"@[4] != "new_con"@[4]);
    assert("new_bin"@[4] != "new_val"@[4]);
    assert("new_bin"@[4] != "new_obj"@[4]);
    assert("new_bin"@[4] != "new_vec"@[4]);
    assert("new_bin"@[4] != "new_str"@[4]);
    assert("new_arr"@[4] != "new_con"@[4]);
    assert("new_arr"@[4] != "new_val"@[4]);
    assert("new_arr"@[4] != "new_obj"@[4]);
    assert("new_arr"@[4] != "new_vec"@[4]);
    assert("new_arr"@[4] != "new_str"@[4]);
    assert("new_arr"@[4] != "new_bin"@[4]);
    assert("ins_val"@[0] != "new_con"@[0]);
    assert("ins_val"@[0] != "new_val"@[0]);
    assert("ins_val"@[0] != "new_obj"@[0]);
    assert("ins_val"@[0] != "new_vec"@[0]);
    assert("ins_val"@[0] != "new_str"@[0]);
    assert("ins_val"@[0] != "new_bin"@[0]);
    assert("ins_val"@[0] != "new_arr"@[0]);
    assert("ins_obj"@[0] != "new_con"@[0]);
    assert("ins_obj"@[0] != "new_val"@[0]);
    assert("ins_obj"@[0] != "new_obj"@[0]);
    assert("ins_obj"@[0] != "new_vec"@[0]);
    assert("ins_obj"@[0] != "new_str"@[0]);
    assert("ins_obj"@[0] != "new_bin"@[0]);
    assert("ins_obj"@[0] != "new_arr"@[0]);
    assert("ins_obj"@[4] != "ins_val"@[4]);
    assert("ins_vec"@[0] != "new_con"@[0]);
    assert("ins_vec"@[0] != "new_val"@[0]);
    assert("ins_vec"@[0] != "new_obj"@[0]);
    assert("ins_vec"@[0] != "new_vec"@[0]);
    assert("ins_vec"@[0] != "new_str"@[0]);
    assert("ins_vec"@[0] != "new_bin"@[0]);
    assert("ins_vec"@[0] != "new_arr"@[0]);
    assert("ins_vec"@[5] != "ins_val"@[5]);
    assert("ins_vec"@[4] != "ins_obj"@[4]);
    assert("ins_str"@[0] != "new_con"@[0]);
    assert("ins_str"@[0] != "new_val"@[0]);
    assert("ins_str"@[0] != "new_obj"@[0]);
    assert("ins_str"@[0] != "new_vec"@[0]);
    assert("ins_str"@[0] != "new_str"@[0]);
    assert("ins_str"@[0] != "new_bin"@[0]);
    assert("ins_str"@[0] != "new_arr"@[0]);
    assert("ins_str"@[4] != "ins_val"@[4]);
    assert("ins_str"@[4] != "ins_obj"@[4]);
    assert("ins_str"@[4] != "ins_vec"@[4]);
    assert("ins_bin"@[0] != "new_con"@[0]);
    assert("ins_bin"@[0] != "new_val"@[0]);
    assert("ins_bin"@[0] != "new_obj"@[0]);
    assert("ins_bin"@[0] != "new_vec"@[0]);
    assert("ins_bin"@[0] != "new_str"@[0]);
    assert("ins_bin"@[0] != "new_bin"@[0]);
    assert("ins_bin"@[0] != "new_arr"@[0]);
    assert("ins_bin"@[4] != "ins_val"@[4]);
    assert("ins_bin"@[4] != "ins_obj"@[4]);
    assert("ins_bin"@[4] != "ins_vec"@[4]);
    assert("ins_bin"@[4] != "ins_str"@[4]);
    assert("ins_arr"@[0] != "new_con"@[0]);
    assert("ins_arr"@[0] != "new_val"@[0]);
    assert("ins_arr"@[0] != "new_obj"@[0]);
    assert("ins_arr"@[0] != "new_vec"@[0]);
    assert("ins_arr"@[0] != "new_str"@[0]);
    assert("ins_arr"@[0] != "new_bin"@[0]);
    assert("ins_arr"@[0] != "new_arr"@[0]);
    assert("ins_arr"@[4] != "ins_val"@[4]);
    assert("ins_arr"@[4] != "ins_obj"@[4]);
    assert("ins_arr"@[4] != "ins_vec"@[4]);
    assert("ins_arr"@[4] != "ins_str"@[4]);
    assert("ins_arr"@[4] != "ins_bin"@[4]);
    assert("upd_arr"@[0] != "new_con"@[0]);
    assert("upd_arr"@[0] != "new_val"@[0]);
    assert("upd_arr"@[0] != "new_obj"@[0]);
    assert("upd_arr"@[0] != "new_vec"@[0]);
    assert("upd_arr"@[0] != "new_str"@[0]);
    assert("upd_arr"@[0] != "new_bin"@[0]);
    assert("upd_arr"@[0] != "new_arr"@[0]);
    assert("upd_arr"@[0] != "ins_val"@[0]);
    assert("upd_arr"@[0] != "ins_obj"@[0]);
    assert("upd_arr"@[0] != "ins_vec"@[0]);
    assert("upd_arr"@[0] != "ins_str"@[0]);
    assert("upd_arr"@[0] != "ins_bin"@[0]);
    assert("upd_arr"@[0] != "ins_arr"@[0]);
    assert("del"@.len() != "new_con"@.len());
    assert("del"@.len() != "new_val"@.len());
    assert("del"@.len() != "new_obj"@.len());
    assert("del"@.len() != "new_vec"@.len());
    assert("del"@.len() != "new_str"@.len());
    assert("del"@.len() != "new_bin"@.len());
    assert("del"@.len() != "new_arr"@.len());
    assert("del"@.len() != "ins_val"@.len());
    assert("del"@.len() != "ins_obj"@.len());
    assert("del"@.len() != "ins_vec"@.len());
    assert("del"@.len() != "ins_str"@.len());
    assert("del"@.len() != "ins_bin"@.len());
    assert("del"@.len() != "ins_arr"@.len());
    assert("del"@.len() != "upd_arr"@.len());
    assert("nop"@.len() != "new_con"@.len());
    assert("nop"@.len() != "new_val"@.len());
    assert("nop"@.len() != "new_obj"@.len());
    assert("nop"@.len() != "new_vec"@.len());
    assert("nop"@.len() != "new_str"@.len());
    assert("nop"@.len() != "new_bin"@.len());
    assert("nop"@.len() != "new_arr"@.len());
    assert("nop"@.len() != "ins_val"@.len());
    assert("nop"@.len() != "ins_obj"@.len());
    assert("nop"@.len() != "ins_vec"@.len());
    assert("nop"@.len() != "ins_str"@.len());
    assert("nop"@.len() != "ins_bin"@.len());
    assert("nop"@.len() != "ins_arr"@.len());
    assert("nop"@.len() != "upd_arr"@.len());
    assert("nop"@[0] != "del"@[0]);
}

/// The field keys differ from each other.
proof fn lemma_keys()
    ensures
        "op"@ != "obj"@,
        "op"@ != "value"@,
        "op"@ != "timestamp"@,
        "op"@ != "after"@,
        "op"@ != "values"@,
        "op"@ != "ref"@,
        "op"@ != "what"@,
        "op"@ != "len"@,
        "obj"@ != "value"@,
        "obj"@ != "after"@,
        "obj"@ != "values"@,
        "obj"@ != "ref"@,
        "obj"@ != "what"@,
        "timestamp"@ != "value"@,
        "after"@ != "value"@,
        "after"@ != "values"@,
        "ref"@ != "value"@,
        "id"@ != "ops"@,
{
    reveal_strlit("op");
    reveal_strlit("obj");
    reveal_strlit("value");
    reveal_strlit("timestamp");
    reveal_strlit("after");
    reveal_strlit("values");
    reveal_strlit("ref");
    reveal_strlit("what");
    reveal_strlit("len");
    reveal_strlit("id");
    reveal_strlit("ops");
    assert("op"@.len() != "obj"@.len());
    assert("op"@.len() != "value"@.len());
    assert("op"@.len() != "timestamp"@.len());
    assert("op"@.len() != "after"@.len());
    assert("op"@.len() != "values"@.len());
    assert("op"@.len() != "ref"@.len());
    assert("op"@.len() != "what"@.len());
    assert("op"@.len() != "len"@.len());
    assert("obj"@.len() != "value"@.len());
    assert("obj"@.len() != "after"@.len());
    assert("obj"@.len() != "values"@.len());
    assert("obj"@[0] != "ref"@[0]);
    assert("obj"@.len() != "what"@.len());
    assert("timestamp"@.len() != "value"@.len());
    assert("after"@[0] != "value"@[0]);
    assert("after"@.len() != "values"@.len());
    assert("ref"@.len() != "value"@.len());
    assert("id"@.len() != "ops"@.len());
}

/// The object of an operation reads back as the operation.
#[verifier::rlimit(60)]
proof fn lemma_row_back(op: OpView)
    requires
        compact_keeps(op),
    ensures
        verbose_row_op(spec_op_id(op), verbose_row(op)) == Ok::<OpView, VerboseFault>(op),
{
    lemma_names();
    lemma_keys();
    reveal_with_fuel(view_get, 5);
    let b = SESSION_SERVER;
    let m = verbose_row(op)->Object_0;
    assert(view_get(m, "op"@) == Some(m[0].1));
    match op {
        OpView::NewCon { value, .. } => {
            if let ConView::Ref(t) = value {
                lemma_ts_back(b, t);
                assert(m.skip(1).skip(1) =~= seq![("value"@, ts_json(b, t))]);
                assert(view_get(m, "timestamp"@) == Some(JsonView::Bool(true)));
                assert(view_get(m, "value"@) == Some(ts_json(b, t)));
            } else if let ConView::Known(j) = value {
                assert(m.skip(1) =~= seq![("value"@, j)]);
                assert(view_get(m, "timestamp"@) is None) by {
                    assert(m.skip(1).skip(1).len() == 0);
                }
                assert(view_get(m, "value"@) == Some(j));
            } else {
                assert(m.skip(1).len() == 0);
            }
        },
        OpView::InsVal { obj, val, .. } => {
            lemma_ts_back(b, obj);
            lemma_ts_back(b, val);
            assert(m.skip(1).skip(1) =~= seq![("value"@, ts_json(b, val))]);
        },
        OpView::InsObj { obj, data, .. } => {
            lemma_ts_back(b, obj);
            lemma_obj_entries_back(b, data);
            assert(m.skip(1).skip(1) =~= seq![m[2]]);
        },
        OpView::InsVec { obj, data, .. } => {
            lemma_ts_back(b, obj);
            lemma_vec_entries_back(b, data);
            assert(m.skip(1).skip(1) =~= seq![m[2]]);
        },
        OpView::InsStr { obj, reference, .. } => {
            lemma_ts_back(b, obj);
            lemma_ts_back(b, reference);
            assert(m.skip(1).skip(1) =~= seq![m[2], m[3]]);
            assert(m.skip(1).skip(1).skip(1) =~= seq![m[3]]);
        },
        OpView::InsBin { obj, reference, .. } => {
            lemma_ts_back(b, obj);
            lemma_ts_back(b, reference);
            assert(m.skip(1).skip(1) =~= seq![m[2], m[3]]);
            assert(m.skip(1).skip(1).skip(1) =~= seq![m[3]]);
        },
        OpView::InsArr { obj, reference, data, .. } => {
            lemma_ts_back(b, obj);
            lemma_ts_back(b, reference);
            lemma_ts_list_back(b, data);
            assert(m.skip(1).skip(1) =~= seq![m[2], m[3]]);
            assert(m.skip(1).skip(1).skip(1) =~= seq![m[3]]);
        },
        OpView::UpdArr { obj, reference, val, .. } => {
            lemma_ts_back(b, obj);
            lemma_ts_back(b, reference);
            lemma_ts_back(b, val);
            assert(m.skip(1).skip(1) =~= seq![m[2], m[3]]);
            assert(m.skip(1).skip(1).skip(1) =~= seq![m[3]]);
        },
        OpView::Del { obj, what, .. } => {
            lemma_ts_back(b, obj);
            lemma_span3_back(what);
            assert(m.skip(1).skip(1) =~= seq![m[2]]);
        },
        OpView::Nop { len, .. } => {
            if len > 1 {
                assert(m.skip(1) =~= seq![m[1]]);
            } else {
                assert(m.skip(1).len() == 0);
            }
        },
        _ => {},
    }
}

/// The rows from index `i` on read back as the operations from `i` on.
proof fn lemma_rows_back(sid: u64, time: u64, ops: Seq<OpView>, i: int)
    requires
        0 <= i <= ops.len(),
        on_timeline(sid, time, ops),
        forall|k: int| 0 <= k < ops.len() ==> #[trigger] compact_keeps(ops[k]),
    ensures
        verbose_rows(sid, canon_time(time, ops, i), ops.map_values(|o: OpView| verbose_row(o)).skip(i))
            == Ok::<Seq<OpView>, VerboseFault>(ops.skip(i)),
    decreases ops.len() - i,
{
    let rows = ops.map_values(|o: OpView| verbose_row(o));
    if i == ops.len() {
        assert(rows.skip(i) =~= Seq::<JsonView>::empty());
        assert(ops.skip(i) =~= Seq::<OpView>::empty());
    } else {
        lemma_rows_back(sid, time, ops, i + 1);
        assert(!off_timeline(sid, time, ops, i));
        assert(compact_keeps(ops[i]));
        lemma_row_back(ops[i]);
        assert(rows.skip(i)[0] == verbose_row(ops[i]));
        assert(rows.skip(i).skip(1) =~= rows.skip(i + 1));
        assert(ops.skip(i) =~= seq![ops[i]] + ops.skip(i + 1));
    }
}

/// Law: a patch whose operations carry the identifiers their places ask
/// reads back from its verbose form as the same session, time and
/// operations (no-ops of length zero and binary payloads that base64 does
/// not give back left out).
pub proof fn lemma_verbose_roundtrip(sid: u64, time: u64, ops: Seq<OpView>)
    requires
        on_timeline(sid, time, ops),
        forall|k: int| 0 <= k < ops.len() ==> #[trigger] compact_keeps(ops[k]),
    ensures
        spec_decode_verbose(spec_encode_verbose(sid, time, ops)) == Ok::<
            (u64, u64, Seq<OpView>),
            VerboseFault,
        >((sid, time, ops)),
{
    lemma_keys();
    reveal_with_fuel(view_get, 3);
    let v = spec_encode_verbose(sid, time, ops);
    let m = v->Object_0;
    lemma_rows_back(sid, time, ops, 0);
    assert(ops.map_values(|o: OpView| verbose_row(o)).skip(0) =~= ops.map_values(|o: OpView| verbose_row(o)));
    assert(ops.skip(0) =~= ops);
    assert(m.skip(1) =~= seq![m[1]]);
    assert(field_items(m, "ops"@) == Some(ops.map_values(|o: OpView| verbose_row(o))));
}

} // verus!
