//! The compact JSON form of patches: an array whose first row holds the
//! patch's session and time, and whose other rows hold one operation each,
//! opcode first, timestamps of the patch's session written as bare times.

use vstd::prelude::*;
use crate::json::{JsonValue, JsonView};
use crate::patch::{
    spec_op_id, spec_op_span, ConValue, ConView, DecodedOp, OpView, Patch, PatchError, Timespan,
    Timestamp,
};
use crate::patch_builder::{
    canon_time, encode_patch_from_ops, off_timeline, on_timeline, op_reads_back, ops_view, patch_bytes,
    patch_reads_back, sat_add, spec_encode_patch, vec_indices_fit, PatchBuildError,
};
use crate::patch_json::{
    array_value, base64_bytes, base64_decode, base64_encode, base64_fits, base64_text, json_obj_entries,
    json_ts, json_ts_list, json_u64, json_vec_entries, num, num_value, obj_entries_value,
    obj_entry_json, read_obj_entries, read_ts, read_ts_list, read_vec_entries, ts_json, ts_jsons,
    ts_list_value, ts_value, vec_entries_value, vec_entry_json, view_text, view_u64, views, lemma_ts_back,
    lemma_ts_list_back, lemma_obj_entries_back, lemma_vec_entries_back,
};

verus! {

/// The session of the server, whose patches carry a bare time in the header.
pub const SESSION_SERVER: u64 = 1u64;

/// Failures of the compact codec.
#[derive(Debug, Clone, PartialEq, Eq)]
pub enum CompactCodecError {
    EmptyPatch,
    InvalidHeader,
    InvalidOperation,
    UnknownOpcode(u64),
    InvalidBase64,
    Build(PatchBuildError),
    Decode(PatchError),
}

// ---------------------------------------------------------------------------
// Spans
// ---------------------------------------------------------------------------

/// A span as JSON: time and length, with the session first when it is not
/// `base`.
pub open spec fn span_json(base: u64, s: Timespan) -> JsonView {
    if s.sid == base {
        JsonView::Array(seq![num(s.time), num(s.span)])
    } else {
        JsonView::Array(seq![num(s.sid), num(s.time), num(s.span)])
    }
}

/// A span read back from JSON.
pub open spec fn json_span(base: u64, v: JsonView) -> Option<Timespan> {
    match v {
        JsonView::Array(a) => if a.len() == 2 {
            match (view_u64(a[0]), view_u64(a[1])) {
                (Some(t), Some(n)) => Some(Timespan { sid: base, time: t, span: n }),
                _ => None,
            }
        } else if a.len() == 3 {
            match (view_u64(a[0]), view_u64(a[1]), view_u64(a[2])) {
                (Some(s), Some(t), Some(n)) => Some(Timespan { sid: s, time: t, span: n }),
                _ => None,
            }
        } else {
            None
        },
        _ => None,
    }
}

/// Every value is a span.
pub open spec fn all_spans(base: u64, items: Seq<JsonView>) -> bool {
    forall|i: int| 0 <= i < items.len() ==> (#[trigger] json_span(base, items[i])) is Some
}

/// The spans of a list, when every value is one.
pub open spec fn json_span_list(base: u64, items: Seq<JsonView>) -> Option<Seq<Timespan>> {
    if all_spans(base, items) {
        Some(Seq::new(items.len(), |i: int| json_span(base, items[i])->0))
    } else {
        None
    }
}

fn read_span(base: u64, v: &JsonValue) -> (res: Option<Timespan>)
    ensures
        res == json_span(base, v.jv()),
{
    match v {
        JsonValue::Array(a) => {
            if a.len() == 2 {
                match (json_u64(&a[0]), json_u64(&a[1])) {
                    (Some(t), Some(n)) => Some(Timespan { sid: base, time: t, span: n }),
                    _ => None,
                }
            } else if a.len() == 3 {
                match (json_u64(&a[0]), json_u64(&a[1]), json_u64(&a[2])) {
                    (Some(s), Some(t), Some(n)) => Some(Timespan { sid: s, time: t, span: n }),
                    _ => None,
                }
            } else {
                None
            }
        },
        _ => None,
    }
}

fn read_span_list(base: u64, items: &Vec<JsonValue>) -> (res: Option<Vec<Timespan>>)
    ensures
        match res {
            Some(v) => json_span_list(base, views(items@)) == Some(v@),
            None => json_span_list(base, views(items@)) is None,
        },
{
    let ghost iv = views(items@);
    let mut out: Vec<Timespan> = Vec::new();
    let mut i: usize = 0;
    while i < items.len()
        invariant
            i <= items.len(),
            iv == views(items@),
            out@.len() == i,
            forall|k: int| 0 <= k < i ==> (#[trigger] json_span(base, iv[k])) == Some(out@[k]),
        decreases items.len() - i,
    {
        match read_span(base, &items[i]) {
            Some(t) => {
                out.push(t);
            },
            None => {
                assert(json_span(base, iv[i as int]) is None);
                return None;
            },
        }
        i = i + 1;
    }
    assert(Seq::new(iv.len(), |k: int| json_span(base, iv[k])->0) =~= out@);
    Some(out)
}

fn span_list_value(base: u64, spans: &Vec<Timespan>) -> (res: JsonValue)
    ensures
        res.jv() == JsonView::Array(spans@.map_values(|s: Timespan| span_json(base, s))),
{
    let mut out: Vec<JsonValue> = Vec::new();
    let mut i: usize = 0;
    while i < spans.len()
        invariant
            i <= spans.len(),
            views(out@) =~= spans@.take(i as int).map_values(|s: Timespan| span_json(base, s)),
        decreases spans.len() - i,
    {
        let s = spans[i];
        let v = if s.sid == base {
            vec![num_value(s.time), num_value(s.span)]
        } else {
            vec![num_value(s.sid), num_value(s.time), num_value(s.span)]
        };
        let row = array_value(v);
        proof {
            if s.sid == base {
                assert(views(v@) =~= seq![num(s.time), num(s.span)]);
            } else {
                assert(views(v@) =~= seq![num(s.sid), num(s.time), num(s.span)]);
            }
        }
        let ghost before = out@;
        out.push(row);
        proof {
            assert(spans@.take(i + 1) =~= spans@.take(i as int).push(spans@[i as int]));
            assert(views(out@) =~= views(before).push(row.jv()));
        }
        i = i + 1;
    }
    assert(spans@.take(spans@.len() as int) =~= spans@);
    array_value(out)
}

// ---------------------------------------------------------------------------
// Rows
// ---------------------------------------------------------------------------

/// The timestamp at position `k` of a row.
pub open spec fn arg_ts(base: u64, op: Seq<JsonView>, k: int) -> Option<Timestamp> {
    if k < op.len() {
        json_ts(base, op[k])
    } else {
        None
    }
}

/// The text at position `k` of a row.
pub open spec fn arg_text(op: Seq<JsonView>, k: int) -> Option<Seq<char>> {
    if k < op.len() {
        view_text(op[k])
    } else {
        None
    }
}

/// The array at position `k` of a row.
pub open spec fn arg_items(op: Seq<JsonView>, k: int) -> Option<Seq<JsonView>> {
    if k < op.len() {
        match op[k] {
            JsonView::Array(a) => Some(a),
            _ => None,
        }
    } else {
        None
    }
}

/// The operation with identifier `id` that a row with opcode `code` holds.
pub open spec fn compact_code_op(sid: u64, id: Timestamp, code: u64, op: Seq<JsonView>) -> Result<
    OpView,
    CompactCodecError,
> {
    let bad = Err(CompactCodecError::InvalidOperation);
    if code == 0 {
        if op.len() == 1 {
            Ok(OpView::NewCon { id, value: ConView::Undef })
        } else if op.len() > 2 && op[2] == JsonView::Bool(true) {
            match json_ts(sid, op[1]) {
                Some(t) => Ok(OpView::NewCon { id, value: ConView::Ref(t) }),
                None => bad,
            }
        } else {
            Ok(OpView::NewCon { id, value: ConView::Known(op[1]) })
        }
    } else if code == 1 {
        Ok(OpView::NewVal { id })
    } else if code == 2 {
        Ok(OpView::NewObj { id })
    } else if code == 3 {
        Ok(OpView::NewVec { id })
    } else if code == 4 {
        Ok(OpView::NewStr { id })
    } else if code == 5 {
        Ok(OpView::NewBin { id })
    } else if code == 6 {
        Ok(OpView::NewArr { id })
    } else if code == 9 {
        match (arg_ts(sid, op, 1), arg_ts(sid, op, 2)) {
            (Some(o), Some(v)) => Ok(OpView::InsVal { id, obj: o, val: v }),
            _ => bad,
        }
    } else if code == 10 {
        match (arg_items(op, 2), arg_ts(sid, op, 1)) {
            (Some(items), Some(o)) => match json_obj_entries(sid, items) {
                Some(d) => Ok(OpView::InsObj { id, obj: o, data: d }),
                None => bad,
            },
            _ => bad,
        }
    } else if code == 11 {
        match (arg_items(op, 2), arg_ts(sid, op, 1)) {
            (Some(items), Some(o)) => match json_vec_entries(sid, items) {
                Some(d) => Ok(OpView::InsVec { id, obj: o, data: d }),
                None => bad,
            },
            _ => bad,
        }
    } else if code == 12 {
        match (arg_ts(sid, op, 1), arg_ts(sid, op, 2), arg_text(op, 3)) {
            (Some(o), Some(r), Some(s)) => Ok(OpView::InsStr { id, obj: o, reference: r, data: s }),
            _ => bad,
        }
    } else if code == 13 {
        match (arg_ts(sid, op, 1), arg_ts(sid, op, 2), arg_text(op, 3)) {
            (Some(o), Some(r), Some(s)) => match base64_bytes(s) {
                Some(b) => Ok(OpView::InsBin { id, obj: o, reference: r, data: b }),
                None => Err(CompactCodecError::InvalidBase64),
            },
            _ => bad,
        }
    } else if code == 14 {
        match (arg_items(op, 3), arg_ts(sid, op, 1), arg_ts(sid, op, 2)) {
            (Some(items), Some(o), Some(r)) => match json_ts_list(sid, items) {
                Some(d) => Ok(OpView::InsArr { id, obj: o, reference: r, data: d }),
                None => bad,
            },
            _ => bad,
        }
    } else if code == 15 {
        match (arg_ts(sid, op, 1), arg_ts(sid, op, 2), arg_ts(sid, op, 3)) {
            (Some(o), Some(r), Some(v)) => Ok(OpView::UpdArr { id, obj: o, reference: r, val: v }),
            _ => bad,
        }
    } else if code == 16 {
        match (arg_items(op, 2), arg_ts(sid, op, 1)) {
            (Some(items), Some(o)) => match json_span_list(sid, items) {
                Some(w) => Ok(OpView::Del { id, obj: o, what: w }),
                None => bad,
            },
            _ => bad,
        }
    } else if code == 17 {
        let len = if op.len() > 1 {
            view_u64(op[1])
        } else {
            None
        };
        Ok(
            OpView::Nop {
                id,
                len: match len {
                    Some(n) => n,
                    None => 1,
                },
            },
        )
    } else {
        Err(CompactCodecError::UnknownOpcode(code))
    }
}

/// The operation with identifier `id` that a row holds.
pub open spec fn compact_row_op(sid: u64, id: Timestamp, row: JsonView) -> Result<OpView, CompactCodecError> {
    match row {
        JsonView::Array(op) => if op.len() == 0 {
            Err(CompactCodecError::InvalidOperation)
        } else {
            match view_u64(op[0]) {
                Some(code) => compact_code_op(sid, id, code, op),
                None => Err(CompactCodecError::InvalidOperation),
            }
        },
        _ => Err(CompactCodecError::InvalidOperation),
    }
}

/// The operations of the rows, the first at time `t` and each next one after
/// the span of the one before (saturating); the first failing row's error.
pub open spec fn compact_rows(sid: u64, t: u64, rows: Seq<JsonView>) -> Result<Seq<OpView>, CompactCodecError>
    decreases rows.len(),
{
    if rows.len() == 0 {
        Ok(Seq::empty())
    } else {
        match compact_row_op(sid, Timestamp { sid, time: t }, rows[0]) {
            Err(e) => Err(e),
            Ok(op) => match compact_rows(sid, sat_add(t, spec_op_span(op)), rows.skip(1)) {
                Err(e) => Err(e),
                Ok(rest) => Ok(seq![op] + rest),
            },
        }
    }
}

/// The session and time of the header row.
pub open spec fn compact_header(v: JsonView) -> Result<(u64, u64), CompactCodecError> {
    let bad = Err(CompactCodecError::InvalidHeader);
    match v {
        JsonView::Array(rows) => if rows.len() == 0 {
            bad
        } else {
            match rows[0] {
                JsonView::Array(h) => if h.len() == 0 {
                    bad
                } else {
                    match view_u64(h[0]) {
                        Some(t) => Ok((SESSION_SERVER, t)),
                        None => match h[0] {
                            JsonView::Array(id) => if id.len() != 2 {
                                bad
                            } else {
                                match (view_u64(id[0]), view_u64(id[1])) {
                                    (Some(s), Some(t)) => Ok((s, t)),
                                    _ => bad,
                                }
                            },
                            _ => bad,
                        },
                    }
                },
                _ => bad,
            }
        },
        _ => bad,
    }
}

/// The session, time and operations of a compact patch.
pub open spec fn spec_decode_compact(v: JsonView) -> Result<(u64, u64, Seq<OpView>), CompactCodecError> {
    match compact_header(v) {
        Err(e) => Err(e),
        Ok((sid, time)) => match compact_rows(sid, time, v->Array_0.skip(1)) {
            Err(e) => Err(e),
            Ok(ops) => Ok((sid, time, ops)),
        },
    }
}

/// `acc` followed by the operations of `rest`, or the error of `rest`.
pub open spec fn chain(acc: Seq<OpView>, rest: Result<Seq<OpView>, CompactCodecError>) -> Result<
    Seq<OpView>,
    CompactCodecError,
> {
    match rest {
        Err(e) => Err(e),
        Ok(r) => Ok(acc + r),
    }
}

fn bad_op<T>() -> (res: Result<T, CompactCodecError>)
    ensures
        res == Err::<T, CompactCodecError>(CompactCodecError::InvalidOperation),
{
    Err(CompactCodecError::InvalidOperation)
}

/// Reads the timestamp at position `k` of a row.
fn row_ts(sid: u64, op: &Vec<JsonValue>, k: usize) -> (res: Option<Timestamp>)
    ensures
        res == arg_ts(sid, views(op@), k as int),
{
    if k < op.len() {
        read_ts(sid, &op[k])
    } else {
        None
    }
}

/// Decodes the operation with identifier `id` that a row holds.
#[verifier::rlimit(40)]
pub fn decode_compact_row(sid: u64, id: Timestamp, row: &JsonValue) -> (res: Result<DecodedOp, CompactCodecError>)
    ensures
        match res {
            Ok(op) => compact_row_op(sid, id, row.jv()) == Ok::<OpView, CompactCodecError>(op.op_view()),
            Err(e) => compact_row_op(sid, id, row.jv()) == Err::<OpView, CompactCodecError>(e),
        },
{
    let op = match row {
        JsonValue::Array(op) => op,
        _ => return bad_op(),
    };
    let ghost ov = views(op@);
    assert(row.jv()->Array_0 =~= ov);
    if op.len() == 0 {
        return bad_op();
    }
    let code = match json_u64(&op[0]) {
        Some(c) => c,
        None => return bad_op(),
    };
    if code == 0 {
        if op.len() == 1 {
            return Ok(DecodedOp::NewCon { id, value: ConValue::Undef });
        }
        let is_ref = op.len() > 2 && match &op[2] {
            JsonValue::Bool(b) => *b,
            _ => false,
        };
        assert(is_ref == (ov.len() > 2 && ov[2] == JsonView::Bool(true)));
        if is_ref {
            return match read_ts(sid, &op[1]) {
                Some(t) => Ok(DecodedOp::NewCon { id, value: ConValue::Ref(t) }),
                None => bad_op(),
            };
        }
        return Ok(DecodedOp::NewCon { id, value: ConValue::Json(op[1].deep_clone()) });
    }
    if code == 1 {
        return Ok(DecodedOp::NewVal { id });
    }
    if code == 2 {
        return Ok(DecodedOp::NewObj { id });
    }
    if code == 3 {
        return Ok(DecodedOp::NewVec { id });
    }
    if code == 4 {
        return Ok(DecodedOp::NewStr { id });
    }
    if code == 5 {
        return Ok(DecodedOp::NewBin { id });
    }
    if code == 6 {
        return Ok(DecodedOp::NewArr { id });
    }
    if code == 9 {
        return match (row_ts(sid, op, 1), row_ts(sid, op, 2)) {
            (Some(o), Some(v)) => Ok(DecodedOp::InsVal { id, obj: o, val: v }),
            _ => bad_op(),
        };
    }
    if code == 10 || code == 11 || code == 16 {
        let items = if op.len() > 2 {
            match &op[2] {
                JsonValue::Array(items) => items,
                _ => return bad_op(),
            }
        } else {
            return bad_op();
        };
        assert(arg_items(ov, 2) == Some(views(items@))) by {
            assert(ov[2]->Array_0 =~= views(items@));
        }
        let o = match row_ts(sid, op, 1) {
            Some(o) => o,
            None => return bad_op(),
        };
        if code == 10 {
            return match read_obj_entries(sid, items) {
                Some(d) => Ok(DecodedOp::InsObj { id, obj: o, data: d }),
                None => bad_op(),
            };
        } else if code == 11 {
            return match read_vec_entries(sid, items) {
                Some(d) => Ok(DecodedOp::InsVec { id, obj: o, data: d }),
                None => bad_op(),
            };
        } else {
            return match read_span_list(sid, items) {
                Some(w) => Ok(DecodedOp::Del { id, obj: o, what: w }),
                None => bad_op(),
            };
        }
    }
    if code == 12 || code == 13 {
        let o = match row_ts(sid, op, 1) {
            Some(o) => o,
            None => return bad_op(),
        };
        let r = match row_ts(sid, op, 2) {
            Some(r) => r,
            None => return bad_op(),
        };
        let s = if op.len() > 3 {
            match &op[3] {
                JsonValue::String(s) => s,
                _ => return bad_op(),
            }
        } else {
            return bad_op();
        };
        assert(arg_text(ov, 3) == Some(s@));
        if code == 12 {
            return Ok(DecodedOp::InsStr { id, obj: o, reference: r, data: s.clone() });
        }
        return match base64_decode(s.as_str()) {
            Some(b) => Ok(DecodedOp::InsBin { id, obj: o, reference: r, data: b }),
            None => Err(CompactCodecError::InvalidBase64),
        };
    }
    if code == 14 {
        let items = if op.len() > 3 {
            match &op[3] {
                JsonValue::Array(items) => items,
                _ => return bad_op(),
            }
        } else {
            return bad_op();
        };
        assert(arg_items(ov, 3) == Some(views(items@))) by {
            assert(ov[3]->Array_0 =~= views(items@));
        }
        let o = match row_ts(sid, op, 1) {
            Some(o) => o,
            None => return bad_op(),
        };
        let r = match row_ts(sid, op, 2) {
            Some(r) => r,
            None => return bad_op(),
        };
        return match read_ts_list(sid, items) {
            Some(d) => Ok(DecodedOp::InsArr { id, obj: o, reference: r, data: d }),
            None => bad_op(),
        };
    }
    if code == 15 {
        return match (row_ts(sid, op, 1), row_ts(sid, op, 2), row_ts(sid, op, 3)) {
            (Some(o), Some(r), Some(v)) => Ok(DecodedOp::UpdArr { id, obj: o, reference: r, val: v }),
            _ => bad_op(),
        };
    }
    if code == 17 {
        let len = if op.len() > 1 {
            json_u64(&op[1])
        } else {
            None
        };
        return Ok(
            DecodedOp::Nop {
                id,
                len: match len {
                    Some(n) => n,
                    None => 1,
                },
            },
        );
    }
    Err(CompactCodecError::UnknownOpcode(code))
}

/// Reads the session and time of the header row.
fn read_compact_header(compact: &JsonValue) -> (res: Result<(u64, u64), CompactCodecError>)
    ensures
        res == compact_header(compact.jv()),
{
    let rows = match compact {
        JsonValue::Array(rows) => rows,
        _ => return Err(CompactCodecError::InvalidHeader),
    };
    if rows.len() == 0 {
        return Err(CompactCodecError::InvalidHeader);
    }
    let header = match &rows[0] {
        JsonValue::Array(h) => h,
        _ => return Err(CompactCodecError::InvalidHeader),
    };
    assert(compact.jv()->Array_0[0] == rows@[0].jv());
    if header.len() == 0 {
        return Err(CompactCodecError::InvalidHeader);
    }
    if let Some(t) = json_u64(&header[0]) {
        return Ok((SESSION_SERVER, t));
    }
    let id = match &header[0] {
        JsonValue::Array(id) => id,
        _ => return Err(CompactCodecError::InvalidHeader),
    };
    if id.len() != 2 {
        return Err(CompactCodecError::InvalidHeader);
    }
    match (json_u64(&id[0]), json_u64(&id[1])) {
        (Some(s), Some(t)) => Ok((s, t)),
        _ => Err(CompactCodecError::InvalidHeader),
    }
}

/// Decodes the session, time and operations of a compact patch; each
/// operation gets the identifier that its place in the patch asks.
pub fn decode_compact_ops(compact: &JsonValue) -> (res: Result<(u64, u64, Vec<DecodedOp>), CompactCodecError>)
    ensures
        match res {
            Ok((sid, time, ops)) => spec_decode_compact(compact.jv()) == Ok::<
                (u64, u64, Seq<OpView>),
                CompactCodecError,
            >((sid, time, ops_view(ops@))),
            Err(e) => spec_decode_compact(compact.jv()) == Err::<(u64, u64, Seq<OpView>), CompactCodecError>(e),
        },
{
    let (sid, time) = match read_compact_header(compact) {
        Ok(h) => h,
        Err(e) => return Err(e),
    };
    let rows = match compact {
        JsonValue::Array(rows) => rows,
        _ => return Err(CompactCodecError::InvalidHeader),
    };
    let ghost rv = views(rows@);
    assert(compact.jv()->Array_0 =~= rv);
    let mut ops: Vec<DecodedOp> = Vec::new();
    let mut op_time = time;
    let mut i: usize = 1;
    assert(ops_view(ops@) =~= Seq::<OpView>::empty());
    assert(seq![] + Seq::<OpView>::empty() =~= Seq::<OpView>::empty());
    while i < rows.len()
        invariant
            1 <= i <= rows.len(),
            rv == views(rows@),
            compact.jv()->Array_0 == rv,
            compact_header(compact.jv()) == Ok::<(u64, u64), CompactCodecError>((sid, time)),
            chain(ops_view(ops@), compact_rows(sid, op_time, rv.skip(i as int))) == compact_rows(
                sid,
                time,
                rv.skip(1),
            ),
        decreases rows.len() - i,
    {
        let ghost rest = rv.skip(i as int);
        assert(rest[0] == rows@[i as int].jv());
        assert(rest.skip(1) =~= rv.skip(i + 1));
        let id = Timestamp { sid, time: op_time };
        let op = match decode_compact_row(sid, id, &rows[i]) {
            Ok(op) => op,
            Err(e) => {
                assert(compact_rows(sid, op_time, rest) == Err::<Seq<OpView>, CompactCodecError>(e));
                return Err(e);
            },
        };
        let ghost before = ops@;
        let span = op.span();
        op_time = op_time.saturating_add(span);
        ops.push(op);
        proof {
            assert(ops_view(ops@) =~= ops_view(before).push(op.op_view()));
            let r2 = compact_rows(sid, op_time, rv.skip(i + 1));
            match r2 {
                Ok(x) => {
                    assert(ops_view(before) + (seq![op.op_view()] + x) =~= ops_view(ops@) + x);
                },
                Err(_) => {},
            }
        }
        i = i + 1;
    }
    proof {
        assert(rv.skip(i as int) =~= Seq::<JsonView>::empty());
        assert(ops_view(ops@) + Seq::<OpView>::empty() =~= ops_view(ops@));
    }
    Ok((sid, time, ops))
}

/// What decoding the compact form `v` gives: its failure, the failure of
/// building the described operations, or the patch that the binary form of
/// those operations decodes into (see `Patch::from_binary_outcome`).
pub open spec fn compact_decode_ok(v: JsonView, res: Result<Patch, CompactCodecError>) -> bool {
    match spec_decode_compact(v) {
        Err(e) => res == Err::<Patch, CompactCodecError>(e),
        Ok((sid, time, ops)) => match spec_encode_patch(sid, time, ops) {
            Err(e) => res == Err::<Patch, CompactCodecError>(CompactCodecError::Build(e)),
            Ok(bytes) => match res {
                Ok(p) => Patch::from_binary_outcome(bytes, Ok(p)),
                Err(CompactCodecError::Decode(e)) => Patch::from_binary_outcome(bytes, Err(e)),
                Err(_) => false,
            },
        },
    }
}

/// Decodes a compact patch: its operations, encoded as a binary patch and
/// decoded back.
pub fn decode_patch_compact(compact: &JsonValue) -> (res: Result<Patch, CompactCodecError>)
    ensures
        compact_decode_ok(compact.jv(), res),
        forall|s: u64, t: u64, ops: Seq<OpView>| #![trigger spec_encode_compact(s, t, ops)]
            compact.jv() == spec_encode_compact(s, t, ops) && compact_reads_back(s, t, ops) ==> (res matches Ok(p)
                && p.spec_sid() == s && p.spec_time() == t && ops_view(p.spec_ops()) == ops),
{
    let (sid, time, ops) = match decode_compact_ops(compact) {
        Ok(d) => d,
        Err(e) => {
            proof {
                assert forall|s: u64, t: u64, o: Seq<OpView>| #![trigger spec_encode_compact(s, t, o)]
                    compact.jv() == spec_encode_compact(s, t, o) && compact_reads_back(s, t, o) implies false by {
                    lemma_compact_candidate(s, t, o);
                }
            }
            return Err(e);
        },
    };
    let bytes = match encode_patch_from_ops(sid, time, ops.as_slice()) {
        Ok(b) => b,
        Err(e) => {
            proof {
                assert forall|s: u64, t: u64, o: Seq<OpView>| #![trigger spec_encode_compact(s, t, o)]
                    compact.jv() == spec_encode_compact(s, t, o) && compact_reads_back(s, t, o) implies false by {
                    lemma_compact_candidate(s, t, o);
                }
            }
            return Err(CompactCodecError::Build(e));
        },
    };
    proof {
        assert forall|s: u64, t: u64, o: Seq<OpView>| #![trigger spec_encode_compact(s, t, o)]
            compact.jv() == spec_encode_compact(s, t, o) && compact_reads_back(s, t, o) implies s == sid && t == time
            && o == ops_view(ops@) && bytes@ == patch_bytes(s, t, o) by {
            lemma_compact_candidate(s, t, o);
        }
    }
    match Patch::from_binary(bytes.as_slice()) {
        Ok(p) => Ok(p),
        Err(e) => Err(CompactCodecError::Decode(e)),
    }
}

// ---------------------------------------------------------------------------
// Encoding
// ---------------------------------------------------------------------------

/// The row of an operation in a patch of session `sid`.
pub open spec fn compact_row(sid: u64, op: OpView) -> JsonView {
    match op {
        OpView::NewCon { value, .. } => match value {
            ConView::Known(j) => JsonView::Array(seq![num(0), j]),
            ConView::Ref(t) => JsonView::Array(seq![num(0), ts_json(sid, t), JsonView::Bool(true)]),
            _ => JsonView::Array(seq![num(0)]),
        },
        OpView::NewVal { .. } => JsonView::Array(seq![num(1)]),
        OpView::NewObj { .. } => JsonView::Array(seq![num(2)]),
        OpView::NewVec { .. } => JsonView::Array(seq![num(3)]),
        OpView::NewStr { .. } => JsonView::Array(seq![num(4)]),
        OpView::NewBin { .. } => JsonView::Array(seq![num(5)]),
        OpView::NewArr { .. } => JsonView::Array(seq![num(6)]),
        OpView::InsVal { obj, val, .. } => JsonView::Array(seq![num(9), ts_json(sid, obj), ts_json(sid, val)]),
        OpView::InsObj { obj, data, .. } => JsonView::Array(
            seq![
                num(10),
                ts_json(sid, obj),
                JsonView::Array(data.map_values(|e: (Seq<char>, Timestamp)| obj_entry_json(sid, e))),
            ],
        ),
        OpView::InsVec { obj, data, .. } => JsonView::Array(
            seq![
                num(11),
                ts_json(sid, obj),
                JsonView::Array(data.map_values(|e: (u64, Timestamp)| vec_entry_json(sid, e))),
            ],
        ),
        OpView::InsStr { obj, reference, data, .. } => JsonView::Array(
            seq![num(12), ts_json(sid, obj), ts_json(sid, reference), JsonView::String(data)],
        ),
        OpView::InsBin { obj, reference, data, .. } => JsonView::Array(
            seq![num(13), ts_json(sid, obj), ts_json(sid, reference), JsonView::String(base64_text(data))],
        ),
        OpView::InsArr { obj, reference, data, .. } => JsonView::Array(
            seq![num(14), ts_json(sid, obj), ts_json(sid, reference), JsonView::Array(ts_jsons(sid, data))],
        ),
        OpView::UpdArr { obj, reference, val, .. } => JsonView::Array(
            seq![num(15), ts_json(sid, obj), ts_json(sid, reference), ts_json(sid, val)],
        ),
        OpView::Del { obj, what, .. } => JsonView::Array(
            seq![
                num(16),
                ts_json(sid, obj),
                JsonView::Array(what.map_values(|w: Timespan| span_json(sid, w))),
            ],
        ),
        OpView::Nop { len, .. } => if len > 1 {
            JsonView::Array(seq![num(17), num(len)])
        } else {
            JsonView::Array(seq![num(17)])
        },
    }
}

/// The header row: the bare time for the server's session, else the pair
/// of session and time.
pub open spec fn compact_header_json(sid: u64, time: u64) -> JsonView {
    if sid == SESSION_SERVER {
        JsonView::Array(seq![num(time)])
    } else {
        JsonView::Array(seq![JsonView::Array(seq![num(sid), num(time)])])
    }
}

/// The compact form of a patch of session `sid` starting at `time`.
pub open spec fn spec_encode_compact(sid: u64, time: u64, ops: Seq<OpView>) -> JsonView {
    JsonView::Array(seq![compact_header_json(sid, time)] + ops.map_values(|o: OpView| compact_row(sid, o)))
}

/// The payload of a binary insertion is short enough for its base64 text.
pub open spec fn bin_fits(op: OpView) -> bool {
    match op {
        OpView::InsBin { data, .. } => base64_fits(data.len()),
        _ => true,
    }
}

/// The base64 text of a binary insertion's payload decodes back into it.
pub open spec fn bin_roundtrips(op: OpView) -> bool {
    match op {
        OpView::InsBin { data, .. } => base64_bytes(base64_text(data)) == Some(data),
        _ => true,
    }
}

/// Builds the row of an operation.
#[verifier::rlimit(40)]
pub fn compact_row_value(sid: u64, op: &DecodedOp) -> (res: JsonValue)
    requires
        bin_fits(op.op_view()),
    ensures
        res.jv() == compact_row(sid, op.op_view()),
        bin_roundtrips(op.op_view()),
{
    let ghost ov = op.op_view();
    let v = match op {
        DecodedOp::NewCon { value, .. } => match value {
            ConValue::Json(j) => vec![num_value(0), j.deep_clone()],
            ConValue::Ref(t) => vec![num_value(0), ts_value(sid, *t), JsonValue::Bool(true)],
            ConValue::Undef => vec![num_value(0)],
        },
        DecodedOp::NewVal { .. } => vec![num_value(1)],
        DecodedOp::NewObj { .. } => vec![num_value(2)],
        DecodedOp::NewVec { .. } => vec![num_value(3)],
        DecodedOp::NewStr { .. } => vec![num_value(4)],
        DecodedOp::NewBin { .. } => vec![num_value(5)],
        DecodedOp::NewArr { .. } => vec![num_value(6)],
        DecodedOp::InsVal { obj, val, .. } => vec![num_value(9), ts_value(sid, *obj), ts_value(sid, *val)],
        DecodedOp::InsObj { obj, data, .. } => vec![num_value(10), ts_value(sid, *obj), obj_entries_value(sid, data)],
        DecodedOp::InsVec { obj, data, .. } => vec![num_value(11), ts_value(sid, *obj), vec_entries_value(sid, data)],
        DecodedOp::InsStr { obj, reference, data, .. } => vec![
            num_value(12),
            ts_value(sid, *obj),
            ts_value(sid, *reference),
            JsonValue::String(data.clone()),
        ],
        DecodedOp::InsBin { obj, reference, data, .. } => vec![
            num_value(13),
            ts_value(sid, *obj),
            ts_value(sid, *reference),
            JsonValue::String(base64_encode(data.as_slice())),
        ],
        DecodedOp::InsArr { obj, reference, data, .. } => vec![
            num_value(14),
            ts_value(sid, *obj),
            ts_value(sid, *reference),
            ts_list_value(sid, data),
        ],
        DecodedOp::UpdArr { obj, reference, val, .. } => vec![
            num_value(15),
            ts_value(sid, *obj),
            ts_value(sid, *reference),
            ts_value(sid, *val),
        ],
        DecodedOp::Del { obj, what, .. } => vec![num_value(16), ts_value(sid, *obj), span_list_value(sid, what)],
        DecodedOp::Nop { len, .. } => if *len > 1 {
            vec![num_value(17), num_value(*len)]
        } else {
            vec![num_value(17)]
        },
    };
    let res = array_value(v);
    assert(views(v@) =~= compact_row(sid, ov)->Array_0);
    res
}

/// Every payload of a binary insertion is short enough for its base64 text.
pub open spec fn bins_fit(ops: Seq<OpView>) -> bool {
    forall|k: int| 0 <= k < ops.len() ==> #[trigger] bin_fits(ops[k])
}

/// Every payload of a binary insertion decodes back from its base64 text.
pub open spec fn bins_roundtrip(ops: Seq<OpView>) -> bool {
    forall|k: int| 0 <= k < ops.len() ==> #[trigger] bin_roundtrips(ops[k])
}

/// Encodes a patch in the compact form; a patch without operations is
/// refused.
pub fn encode_patch_compact(patch: &Patch) -> (res: Result<JsonValue, CompactCodecError>)
    requires
        bins_fit(ops_view(patch.spec_ops())),
    ensures
        match res {
            Ok(v) => patch.spec_op_count() != 0 && v.jv() == spec_encode_compact(
                patch.spec_sid(),
                patch.spec_time(),
                ops_view(patch.spec_ops()),
            ) && bins_roundtrip(ops_view(patch.spec_ops())),
            Err(e) => e == CompactCodecError::EmptyPatch && patch.spec_op_count() == 0,
        },
{
    let (sid, time) = match patch.id() {
        Some(id) => id,
        None => return Err(CompactCodecError::EmptyPatch),
    };
    let ops = patch.decoded_ops();
    let ghost ov = ops_view(ops@);
    let header = if sid == SESSION_SERVER {
        let h = vec![num_value(time)];
        assert(views(h@) =~= seq![num(time)]);
        array_value(h)
    } else {
        let pair = vec![num_value(sid), num_value(time)];
        assert(views(pair@) =~= seq![num(sid), num(time)]);
        let p = array_value(pair);
        let h = vec![p];
        assert(views(h@) =~= seq![JsonView::Array(seq![num(sid), num(time)])]);
        array_value(h)
    };
    let mut out: Vec<JsonValue> = Vec::new();
    out.push(header);
    let mut i: usize = 0;
    assert(views(out@) =~= seq![compact_header_json(sid, time)] + ov.take(0).map_values(
        |o: OpView| compact_row(sid, o),
    ));
    while i < ops.len()
        invariant
            i <= ops.len(),
            ov == ops_view(ops@),
            bins_fit(ov),
            views(out@) =~= seq![compact_header_json(sid, time)] + ov.take(i as int).map_values(
                |o: OpView| compact_row(sid, o),
            ),
            forall|k: int| 0 <= k < i ==> #[trigger] bin_roundtrips(ov[k]),
        decreases ops.len() - i,
    {
        assert(bin_fits(ov[i as int]));
        let row = compact_row_value(sid, &ops[i]);
        let ghost before = out@;
        out.push(row);
        proof {
            assert(ov.take(i + 1) =~= ov.take(i as int).push(ov[i as int]));
            assert(views(out@) =~= views(before).push(row.jv()));
        }
        i = i + 1;
    }
    assert(ov.take(ov.len() as int) =~= ov);
    Ok(array_value(out))
}

// ---------------------------------------------------------------------------
// Round trip
// ---------------------------------------------------------------------------

/// What a compact row gives back: any operation but a no-op of length zero,
/// or a binary payload that its base64 text does not decode back into.
pub open spec fn compact_keeps(op: OpView) -> bool {
    &&& match op {
        OpView::Nop { len, .. } => len > 0,
        _ => true,
    }
    &&& bin_roundtrips(op)
}

proof fn lemma_spans_back(base: u64, w: Seq<Timespan>)
    ensures
        json_span_list(base, w.map_values(|s: Timespan| span_json(base, s))) == Some(w),
{
    let items = w.map_values(|s: Timespan| span_json(base, s));
    assert forall|i: int| 0 <= i < items.len() implies (#[trigger] json_span(base, items[i])) == Some(w[i]) by {}
    assert(Seq::new(items.len(), |i: int| json_span(base, items[i])->0) =~= w);
}

/// The row of an operation reads back as the operation.
proof fn lemma_row_back(sid: u64, op: OpView)
    requires
        compact_keeps(op),
    ensures
        compact_row_op(sid, spec_op_id(op), compact_row(sid, op)) == Ok::<OpView, CompactCodecError>(op),
{
    match op {
        OpView::NewCon { value, .. } => {
            if let ConView::Ref(t) = value {
                lemma_ts_back(sid, t);
            }
        },
        OpView::InsVal { obj, val, .. } => {
            lemma_ts_back(sid, obj);
            lemma_ts_back(sid, val);
        },
        OpView::InsObj { obj, data, .. } => {
            lemma_ts_back(sid, obj);
            lemma_obj_entries_back(sid, data);
        },
        OpView::InsVec { obj, data, .. } => {
            lemma_ts_back(sid, obj);
            lemma_vec_entries_back(sid, data);
        },
        OpView::InsStr { obj, reference, .. } => {
            lemma_ts_back(sid, obj);
            lemma_ts_back(sid, reference);
        },
        OpView::InsBin { obj, reference, .. } => {
            lemma_ts_back(sid, obj);
            lemma_ts_back(sid, reference);
        },
        OpView::InsArr { obj, reference, data, .. } => {
            lemma_ts_back(sid, obj);
            lemma_ts_back(sid, reference);
            lemma_ts_list_back(sid, data);
        },
        OpView::UpdArr { obj, reference, val, .. } => {
            lemma_ts_back(sid, obj);
            lemma_ts_back(sid, reference);
            lemma_ts_back(sid, val);
        },
        OpView::Del { obj, what, .. } => {
            lemma_ts_back(sid, obj);
            lemma_spans_back(sid, what);
        },
        _ => {},
    }
}

/// The rows from index `i` on read back as the operations from `i` on.
proof fn lemma_rows_back(sid: u64, time: u64, ops: Seq<OpView>, i: int)
    requires
        0 <= i <= ops.len(),
        on_timeline(sid, time, ops),
        forall|k: int| 0 <= k < ops.len() ==> #[trigger] compact_keeps(ops[k]),
    ensures
        compact_rows(
            sid,
            canon_time(time, ops, i),
            ops.map_values(|o: OpView| compact_row(sid, o)).skip(i),
        ) == Ok::<Seq<OpView>, CompactCodecError>(ops.skip(i)),
    decreases ops.len() - i,
{
    let rows = ops.map_values(|o: OpView| compact_row(sid, o));
    if i == ops.len() {
        assert(rows.skip(i) =~= Seq::<JsonView>::empty());
        assert(ops.skip(i) =~= Seq::<OpView>::empty());
    } else {
        lemma_rows_back(sid, time, ops, i + 1);
        assert(!off_timeline(sid, time, ops, i));
        assert(compact_keeps(ops[i]));
        lemma_row_back(sid, ops[i]);
        assert(rows.skip(i)[0] == compact_row(sid, ops[i]));
        assert(rows.skip(i).skip(1) =~= rows.skip(i + 1));
        assert(ops.skip(i) =~= seq![ops[i]] + ops.skip(i + 1));
    }
}

/// Law: a patch whose operations carry the identifiers their places ask
/// reads back from its compact form as the same session, time and
/// operations (no-ops of length zero and binary payloads that base64 does
/// not give back left out).
pub proof fn lemma_compact_roundtrip(sid: u64, time: u64, ops: Seq<OpView>)
    requires
        on_timeline(sid, time, ops),
        forall|k: int| 0 <= k < ops.len() ==> #[trigger] compact_keeps(ops[k]),
    ensures
        spec_decode_compact(spec_encode_compact(sid, time, ops)) == Ok::<
            (u64, u64, Seq<OpView>),
            CompactCodecError,
        >((sid, time, ops)),
{
    let v = spec_encode_compact(sid, time, ops);
    let rows = ops.map_values(|o: OpView| compact_row(sid, o));
    lemma_rows_back(sid, time, ops, 0);
    assert(v->Array_0.skip(1) =~= rows.skip(0));
    assert(ops.skip(0) =~= ops);
    assert(compact_header(v) == Ok::<(u64, u64), CompactCodecError>((sid, time)));
}

/// Operations whose compact form and binary form both read back.
pub open spec fn compact_reads_back(sid: u64, time: u64, ops: Seq<OpView>) -> bool {
    &&& patch_reads_back(sid, time, ops)
    &&& forall|k: int| 0 <= k < ops.len() ==> #[trigger] compact_keeps(ops[k])
}

/// Such operations decode from their compact form and encode into the bytes
/// of their patch.
pub(crate) proof fn lemma_compact_candidate(sid: u64, time: u64, ops: Seq<OpView>)
    requires
        compact_reads_back(sid, time, ops),
    ensures
        spec_decode_compact(spec_encode_compact(sid, time, ops)) == Ok::<(u64, u64, Seq<OpView>), CompactCodecError>(
            (sid, time, ops),
        ),
        spec_encode_patch(sid, time, ops) == Ok::<Seq<u8>, PatchBuildError>(patch_bytes(sid, time, ops)),
{
    lemma_compact_roundtrip(sid, time, ops);
    assert forall|k: int| 0 <= k < ops.len() implies #[trigger] vec_indices_fit(ops[k]) by {
        assert(op_reads_back(ops[k]));
    }
}

} // verus!
