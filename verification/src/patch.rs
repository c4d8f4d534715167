//! JSON CRDT patch binary: identifiers, operations and the patch decoder.
//!
//! A patch starts with the session id and time of its first operation (two
//! `vu57`), a CBOR metadata item and the operation count (`vu57`). Each
//! operation starts with an octet whose high five bits are the opcode and low
//! three bits an inline length (0 meaning that a `vu57` length follows).
//! Identifiers are `b1vu56` times whose flag tells whether a `vu57` session id
//! follows (else the patch's session applies).

use vstd::prelude::*;
use crate::cbor::{cbor_item, cbor_json, json_fit, starts_with, cbor_read_one, cbor_to_json, int_to_json, spec_int_to_json, CborHead, CborRead};
use crate::crdt_binary::{read_b1vu56, read_vu57, spec_read_b1vu56, spec_read_vu57, lemma_read_vu57_pos, lemma_read_b1vu56_pos};
use crate::json::{JsonValue, JsonView};
use crate::cbor_enc::json_cbor_bytes;
use crate::cbor_enc::cbor_text_bytes;
use crate::patch_builder::{
    id_bytes, id_fits, lemma_obj_entries_bytes_cons, obj_entries_bytes, obj_entries_fit,
    ids_follow, lemma_op_roundtrip, lemma_ops_bytes_cons, lemma_patch_head, lemma_timeline_follow,
    lemma_total_span_nonneg, op_bytes, op_reads_back, op_roundtrips, ops_bytes, ops_view, patch_bytes, patch_reads_back,
    total_span,
};
use crate::text::from_utf8_bytes;
use vstd::utf8::{valid_utf8, decode_utf8};

verus! {

/// Failures of patch decoding.
#[derive(Debug, Clone, Copy, PartialEq, Eq, Structural)]
pub enum PatchError {
    Overflow,
    UnknownOpcode(u8),
    InvalidCbor,
    TrailingBytes,
}

/// A logical timestamp: session id and time.
#[derive(Debug, Clone, Copy, PartialEq, Eq, Structural)]
pub struct Timestamp {
    pub sid: u64,
    pub time: u64,
}

/// A run of `span` consecutive timestamps of one session, starting at `time`.
#[derive(Debug, Clone, Copy, PartialEq, Eq, Structural)]
pub struct Timespan {
    pub sid: u64,
    pub time: u64,
    pub span: u64,
}

/// The value of a constant: JSON, a reference to another node, or the
/// undefined value.
#[derive(Debug, PartialEq)]
pub enum ConValue {
    Json(JsonValue),
    Ref(Timestamp),
    Undef,
}

/// One decoded patch operation.
#[derive(Debug, PartialEq)]
pub enum DecodedOp {
    NewCon { id: Timestamp, value: ConValue },
    NewVal { id: Timestamp },
    NewObj { id: Timestamp },
    NewVec { id: Timestamp },
    NewStr { id: Timestamp },
    NewBin { id: Timestamp },
    NewArr { id: Timestamp },
    InsVal { id: Timestamp, obj: Timestamp, val: Timestamp },
    InsObj { id: Timestamp, obj: Timestamp, data: Vec<(String, Timestamp)> },
    InsVec { id: Timestamp, obj: Timestamp, data: Vec<(u64, Timestamp)> },
    InsStr { id: Timestamp, obj: Timestamp, reference: Timestamp, data: String },
    InsBin { id: Timestamp, obj: Timestamp, reference: Timestamp, data: Vec<u8> },
    InsArr { id: Timestamp, obj: Timestamp, reference: Timestamp, data: Vec<Timestamp> },
    UpdArr { id: Timestamp, obj: Timestamp, reference: Timestamp, val: Timestamp },
    Del { id: Timestamp, obj: Timestamp, what: Vec<Timespan> },
    Nop { id: Timestamp, len: u64 },
}

/// The value of a decoded constant: a JSON value, a reference, or undefined.
pub enum ConView {
    Known(JsonView),
    Ref(Timestamp),
    Undef,
}

/// The content of a decoded operation.
pub enum OpView {
    NewCon { id: Timestamp, value: ConView },
    NewVal { id: Timestamp },
    NewObj { id: Timestamp },
    NewVec { id: Timestamp },
    NewStr { id: Timestamp },
    NewBin { id: Timestamp },
    NewArr { id: Timestamp },
    InsVal { id: Timestamp, obj: Timestamp, val: Timestamp },
    InsObj { id: Timestamp, obj: Timestamp, data: Seq<(Seq<char>, Timestamp)> },
    InsVec { id: Timestamp, obj: Timestamp, data: Seq<(u64, Timestamp)> },
    InsStr { id: Timestamp, obj: Timestamp, reference: Timestamp, data: Seq<char> },
    InsBin { id: Timestamp, obj: Timestamp, reference: Timestamp, data: Seq<u8> },
    InsArr { id: Timestamp, obj: Timestamp, reference: Timestamp, data: Seq<Timestamp> },
    UpdArr { id: Timestamp, obj: Timestamp, reference: Timestamp, val: Timestamp },
    Del { id: Timestamp, obj: Timestamp, what: Seq<Timespan> },
    Nop { id: Timestamp, len: u64 },
}

/// A copy of a vector of plain values.
pub fn copy_vec<T: Copy>(v: &Vec<T>) -> (res: Vec<T>)
    ensures
        res@ == v@,
{
    let mut out: Vec<T> = Vec::new();
    let mut i: usize = 0;
    while i < v.len()
        invariant
            i <= v.len(),
            out@ == v@.take(i as int),
        decreases v.len() - i,
    {
        out.push(v[i]);
        assert(v@.take(i + 1) =~= v@.take(i as int).push(v@[i as int]));
        i = i + 1;
    }
    assert(v@.take(v@.len() as int) =~= v@);
    out
}

impl DecodedOp {
    /// The content of the operation.
    pub open spec fn op_view(&self) -> OpView {
        match self {
            DecodedOp::NewCon { id, value } => OpView::NewCon {
                id: *id,
                value: match value {
                    ConValue::Json(v) => ConView::Known(v.jv()),
                    ConValue::Ref(t) => ConView::Ref(*t),
                    ConValue::Undef => ConView::Undef,
                },
            },
            DecodedOp::NewVal { id } => OpView::NewVal { id: *id },
            DecodedOp::NewObj { id } => OpView::NewObj { id: *id },
            DecodedOp::NewVec { id } => OpView::NewVec { id: *id },
            DecodedOp::NewStr { id } => OpView::NewStr { id: *id },
            DecodedOp::NewBin { id } => OpView::NewBin { id: *id },
            DecodedOp::NewArr { id } => OpView::NewArr { id: *id },
            DecodedOp::InsVal { id, obj, val } => OpView::InsVal { id: *id, obj: *obj, val: *val },
            DecodedOp::InsObj { id, obj, data } => OpView::InsObj {
                id: *id,
                obj: *obj,
                data: data@.map_values(|e: (String, Timestamp)| (e.0@, e.1)),
            },
            DecodedOp::InsVec { id, obj, data } => OpView::InsVec { id: *id, obj: *obj, data: data@ },
            DecodedOp::InsStr { id, obj, reference, data } => OpView::InsStr {
                id: *id,
                obj: *obj,
                reference: *reference,
                data: data@,
            },
            DecodedOp::InsBin { id, obj, reference, data } => OpView::InsBin {
                id: *id,
                obj: *obj,
                reference: *reference,
                data: data@,
            },
            DecodedOp::InsArr { id, obj, reference, data } => OpView::InsArr {
                id: *id,
                obj: *obj,
                reference: *reference,
                data: data@,
            },
            DecodedOp::UpdArr { id, obj, reference, val } => OpView::UpdArr {
                id: *id,
                obj: *obj,
                reference: *reference,
                val: *val,
            },
            DecodedOp::Del { id, obj, what } => OpView::Del { id: *id, obj: *obj, what: what@ },
            DecodedOp::Nop { id, len } => OpView::Nop { id: *id, len: *len },
        }
    }

    /// A copy of the operation.
    pub fn deep_clone(&self) -> (res: DecodedOp)
        ensures
            res.op_view() == self.op_view(),
    {
        match self {
            DecodedOp::NewCon { id, value } => DecodedOp::NewCon {
                id: *id,
                value: match value {
                    ConValue::Json(v) => ConValue::Json(v.deep_clone()),
                    ConValue::Ref(t) => ConValue::Ref(*t),
                    ConValue::Undef => ConValue::Undef,
                },
            },
            DecodedOp::NewVal { id } => DecodedOp::NewVal { id: *id },
            DecodedOp::NewObj { id } => DecodedOp::NewObj { id: *id },
            DecodedOp::NewVec { id } => DecodedOp::NewVec { id: *id },
            DecodedOp::NewStr { id } => DecodedOp::NewStr { id: *id },
            DecodedOp::NewBin { id } => DecodedOp::NewBin { id: *id },
            DecodedOp::NewArr { id } => DecodedOp::NewArr { id: *id },
            DecodedOp::InsVal { id, obj, val } => DecodedOp::InsVal { id: *id, obj: *obj, val: *val },
            DecodedOp::InsObj { id, obj, data } => {
                let mut out: Vec<(String, Timestamp)> = Vec::new();
                let mut i: usize = 0;
                while i < data.len()
                    invariant
                        i <= data.len(),
                        obj_data_view(out@) =~= obj_data_view(data@.take(i as int)),
                    decreases data.len() - i,
                {
                    let k = data[i].0.clone();
                    let ghost before = out@;
                    out.push((k, data[i].1));
                    assert(data@.take(i + 1) =~= data@.take(i as int).push(data@[i as int]));
                    assert(obj_data_view(out@) =~= obj_data_view(before).push((data@[i as int].0@, data@[i as int].1)));
                    assert(obj_data_view(data@.take(i + 1)) =~= obj_data_view(data@.take(i as int)).push(
                        (data@[i as int].0@, data@[i as int].1),
                    ));
                    i = i + 1;
                }
                assert(data@.take(data@.len() as int) =~= data@);
                DecodedOp::InsObj { id: *id, obj: *obj, data: out }
            },
            DecodedOp::InsVec { id, obj, data } => DecodedOp::InsVec { id: *id, obj: *obj, data: copy_vec(data) },
            DecodedOp::InsStr { id, obj, reference, data } => DecodedOp::InsStr {
                id: *id,
                obj: *obj,
                reference: *reference,
                data: data.clone(),
            },
            DecodedOp::InsBin { id, obj, reference, data } => DecodedOp::InsBin {
                id: *id,
                obj: *obj,
                reference: *reference,
                data: copy_vec(data),
            },
            DecodedOp::InsArr { id, obj, reference, data } => DecodedOp::InsArr {
                id: *id,
                obj: *obj,
                reference: *reference,
                data: copy_vec(data),
            },
            DecodedOp::UpdArr { id, obj, reference, val } => DecodedOp::UpdArr {
                id: *id,
                obj: *obj,
                reference: *reference,
                val: *val,
            },
            DecodedOp::Del { id, obj, what } => DecodedOp::Del { id: *id, obj: *obj, what: copy_vec(what) },
            DecodedOp::Nop { id, len } => DecodedOp::Nop { id: *id, len: *len },
        }
    }

    /// The identifier of the operation.
    pub fn id(&self) -> (res: Timestamp)
        ensures
            res == spec_op_id(self.op_view()),
    {
        match self {
            DecodedOp::NewCon { id, .. } => *id,
            DecodedOp::NewVal { id } => *id,
            DecodedOp::NewObj { id } => *id,
            DecodedOp::NewVec { id } => *id,
            DecodedOp::NewStr { id } => *id,
            DecodedOp::NewBin { id } => *id,
            DecodedOp::NewArr { id } => *id,
            DecodedOp::InsVal { id, .. } => *id,
            DecodedOp::InsObj { id, .. } => *id,
            DecodedOp::InsVec { id, .. } => *id,
            DecodedOp::InsStr { id, .. } => *id,
            DecodedOp::InsBin { id, .. } => *id,
            DecodedOp::InsArr { id, .. } => *id,
            DecodedOp::UpdArr { id, .. } => *id,
            DecodedOp::Del { id, .. } => *id,
            DecodedOp::Nop { id, .. } => *id,
        }
    }

    /// The number of logical clock ticks the operation takes.
    pub fn span(&self) -> (res: u64)
        ensures
            res == spec_op_span(self.op_view()),
    {
        match self {
            DecodedOp::InsStr { data, .. } => {
                let n = data.as_str().unicode_len();
                n as u64
            },
            DecodedOp::InsBin { data, .. } => data.len() as u64,
            DecodedOp::InsArr { data, .. } => data.len() as u64,
            DecodedOp::Nop { len, .. } => *len,
            _ => 1,
        }
    }
}

/// The identifier of an operation.
pub open spec fn spec_op_id(op: OpView) -> Timestamp {
    match op {
        OpView::NewCon { id, .. } => id,
        OpView::NewVal { id } => id,
        OpView::NewObj { id } => id,
        OpView::NewVec { id } => id,
        OpView::NewStr { id } => id,
        OpView::NewBin { id } => id,
        OpView::NewArr { id } => id,
        OpView::InsVal { id, .. } => id,
        OpView::InsObj { id, .. } => id,
        OpView::InsVec { id, .. } => id,
        OpView::InsStr { id, .. } => id,
        OpView::InsBin { id, .. } => id,
        OpView::InsArr { id, .. } => id,
        OpView::UpdArr { id, .. } => id,
        OpView::Del { id, .. } => id,
        OpView::Nop { id, .. } => id,
    }
}

/// The clock ticks an operation takes: its character, byte or element count
/// for insertions of text, bytes and elements, its length for a no-op, else 1.
pub open spec fn spec_op_span(op: OpView) -> u64 {
    match op {
        OpView::InsStr { data, .. } => data.len() as u64,
        OpView::InsBin { data, .. } => data.len() as u64,
        OpView::InsArr { data, .. } => data.len() as u64,
        OpView::Nop { len, .. } => len,
        _ => 1,
    }
}

// ---------------------------------------------------------------------------
// The wire format, position by position
// ---------------------------------------------------------------------------

/// A `vu57` at `pos`.
pub open spec fn spec_vu57_at(data: Seq<u8>, pos: int) -> Result<(u64, int), PatchError> {
    let (r, p) = spec_read_vu57(data, pos);
    match r {
        None => Err(PatchError::Overflow),
        Some(v) => Ok((v, p)),
    }
}

/// A byte at `pos`.
pub open spec fn spec_u8_at(data: Seq<u8>, pos: int) -> Result<(u8, int), PatchError> {
    if 0 <= pos < data.len() {
        Ok((data[pos], pos + 1))
    } else {
        Err(PatchError::Overflow)
    }
}

/// An identifier at `pos`, in a patch of session `sid`.
pub open spec fn spec_decode_id(data: Seq<u8>, pos: int, sid: u64) -> Result<
    (Timestamp, int),
    PatchError,
> {
    let (r, p) = spec_read_b1vu56(data, pos);
    match r {
        None => Err(PatchError::Overflow),
        Some((flag, time)) => if flag == 1 {
            match spec_vu57_at(data, p) {
                Err(e) => Err(e),
                Ok((s, p2)) => Ok((Timestamp { sid: s, time }, p2)),
            }
        } else {
            Ok((Timestamp { sid, time }, p))
        },
    }
}

/// The bytes from `pos` on.
pub open spec fn rest_at(data: Seq<u8>, pos: int) -> Seq<u8> {
    data.subrange(pos, data.len() as int)
}

/// The CBOR item at `pos`: its head and the position after it.
pub open spec fn spec_cbor_at(data: Seq<u8>, pos: int) -> Result<(CborHead, int), PatchError> {
    match cbor_item(data.subrange(pos, data.len() as int)) {
        None => Err(PatchError::InvalidCbor),
        Some((h, n)) => Ok((h, pos + n)),
    }
}

/// The length of an operation: the low three bits of its octet, or a `vu57`
/// at `pos` when they are zero.
pub open spec fn spec_len_at(data: Seq<u8>, pos: int, octet: u8) -> Result<(u64, int), PatchError> {
    if octet & 7u8 == 0 {
        spec_vu57_at(data, pos)
    } else {
        Ok(((octet & 7u8) as u64, pos))
    }
}

/// `k` object entries: a CBOR text key and an identifier each.
pub open spec fn spec_obj_entries(data: Seq<u8>, pos: int, k: nat, sid: u64) -> Result<
    (Seq<(Seq<char>, Timestamp)>, int),
    PatchError,
>
    decreases k,
{
    if k == 0 {
        Ok((Seq::empty(), pos))
    } else {
        match spec_cbor_at(data, pos) {
            Err(e) => Err(e),
            Ok((CborHead::Text(key), p1)) => match spec_decode_id(data, p1, sid) {
                Err(e) => Err(e),
                Ok((v, p2)) => match spec_obj_entries(data, p2, (k - 1) as nat, sid) {
                    Err(e) => Err(e),
                    Ok((rest, end)) => Ok((seq![(key, v)] + rest, end)),
                },
            },
            Ok(_) => Err(PatchError::InvalidCbor),
        }
    }
}

/// `k` vector entries: a one-byte index and an identifier each.
pub open spec fn spec_vec_entries(data: Seq<u8>, pos: int, k: nat, sid: u64) -> Result<
    (Seq<(u64, Timestamp)>, int),
    PatchError,
>
    decreases k,
{
    if k == 0 {
        Ok((Seq::empty(), pos))
    } else {
        match spec_u8_at(data, pos) {
            Err(e) => Err(e),
            Ok((idx, p1)) => match spec_decode_id(data, p1, sid) {
                Err(e) => Err(e),
                Ok((v, p2)) => match spec_vec_entries(data, p2, (k - 1) as nat, sid) {
                    Err(e) => Err(e),
                    Ok((rest, end)) => Ok((seq![(idx as u64, v)] + rest, end)),
                },
            },
        }
    }
}

/// `k` identifiers.
pub open spec fn spec_ids(data: Seq<u8>, pos: int, k: nat, sid: u64) -> Result<
    (Seq<Timestamp>, int),
    PatchError,
>
    decreases k,
{
    if k == 0 {
        Ok((Seq::empty(), pos))
    } else {
        match spec_decode_id(data, pos, sid) {
            Err(e) => Err(e),
            Ok((v, p1)) => match spec_ids(data, p1, (k - 1) as nat, sid) {
                Err(e) => Err(e),
                Ok((rest, end)) => Ok((seq![v] + rest, end)),
            },
        }
    }
}

/// `k` deleted spans: a start identifier and a `vu57` length each.
pub open spec fn spec_spans(data: Seq<u8>, pos: int, k: nat, sid: u64) -> Result<
    (Seq<Timespan>, int),
    PatchError,
>
    decreases k,
{
    if k == 0 {
        Ok((Seq::empty(), pos))
    } else {
        match spec_decode_id(data, pos, sid) {
            Err(e) => Err(e),
            Ok((start, p1)) => match spec_vu57_at(data, p1) {
                Err(e) => Err(e),
                Ok((span, p2)) => match spec_spans(data, p2, (k - 1) as nat, sid) {
                    Err(e) => Err(e),
                    Ok((rest, end)) => Ok(
                        (seq![Timespan { sid: start.sid, time: start.time, span }] + rest, end),
                    ),
                },
            },
        }
    }
}

/// `n` raw bytes.
pub open spec fn spec_bytes_at(data: Seq<u8>, pos: int, n: usize) -> Result<(Seq<u8>, int), PatchError> {
    if 0 <= pos && pos + n <= data.len() {
        Ok((data.subrange(pos, pos + n), pos + n))
    } else {
        Err(PatchError::Overflow)
    }
}

/// The operation at `pos` with identifier `op_id`: its opcode, content,
/// clock span and the position after it.
pub open spec fn spec_decode_op(data: Seq<u8>, pos: int, sid: u64, op_id: Timestamp) -> Result<
    (u8, OpView, u64, int),
    PatchError,
> {
    match spec_u8_at(data, pos) {
        Err(e) => Err(e),
        Ok((octet, p)) => {
            let opcode = (octet >> 3u8) as u8;
            if opcode == 0 {
                if octet & 7u8 == 0 {
                    match spec_cbor_at(data, p) {
                        Err(e) => Err(e),
                        Ok((CborHead::Text(s), p1)) => Ok(
                            (opcode, OpView::NewCon { id: op_id, value: ConView::Known(JsonView::String(s)) }, 1, p1),
                        ),
                        Ok((CborHead::Integer(i), p1)) => match spec_int_to_json(i) {
                            Some(n) => Ok(
                                (opcode, OpView::NewCon { id: op_id, value: ConView::Known(JsonView::Number(n)) }, 1, p1),
                            ),
                            None => Err(PatchError::InvalidCbor),
                        },
                        Ok((CborHead::Other(v), p1)) => match cbor_json(v, 257) {
                            Some(j) => Ok((opcode, OpView::NewCon { id: op_id, value: ConView::Known(j) }, 1, p1)),
                            None => Err(PatchError::InvalidCbor),
                        },
                    }
                } else {
                    match spec_decode_id(data, p, sid) {
                        Err(e) => Err(e),
                        Ok((r, p1)) => Ok((opcode, OpView::NewCon { id: op_id, value: ConView::Ref(r) }, 1, p1)),
                    }
                }
            } else if opcode == 1 {
                Ok((opcode, OpView::NewVal { id: op_id }, 1, p))
            } else if opcode == 2 {
                Ok((opcode, OpView::NewObj { id: op_id }, 1, p))
            } else if opcode == 3 {
                Ok((opcode, OpView::NewVec { id: op_id }, 1, p))
            } else if opcode == 4 {
                Ok((opcode, OpView::NewStr { id: op_id }, 1, p))
            } else if opcode == 5 {
                Ok((opcode, OpView::NewBin { id: op_id }, 1, p))
            } else if opcode == 6 {
                Ok((opcode, OpView::NewArr { id: op_id }, 1, p))
            } else if opcode == 9 {
                match spec_decode_id(data, p, sid) {
                    Err(e) => Err(e),
                    Ok((obj, p1)) => match spec_decode_id(data, p1, sid) {
                        Err(e) => Err(e),
                        Ok((val, p2)) => Ok((opcode, OpView::InsVal { id: op_id, obj, val }, 1, p2)),
                    },
                }
            } else if opcode == 10 {
                match spec_len_at(data, p, octet) {
                    Err(e) => Err(e),
                    Ok((len, p1)) => match spec_decode_id(data, p1, sid) {
                        Err(e) => Err(e),
                        Ok((obj, p2)) => match spec_obj_entries(data, p2, len as nat, sid) {
                            Err(e) => Err(e),
                            Ok((d, p3)) => Ok((opcode, OpView::InsObj { id: op_id, obj, data: d }, 1, p3)),
                        },
                    },
                }
            } else if opcode == 11 {
                match spec_len_at(data, p, octet) {
                    Err(e) => Err(e),
                    Ok((len, p1)) => match spec_decode_id(data, p1, sid) {
                        Err(e) => Err(e),
                        Ok((obj, p2)) => match spec_vec_entries(data, p2, len as nat, sid) {
                            Err(e) => Err(e),
                            Ok((d, p3)) => Ok((opcode, OpView::InsVec { id: op_id, obj, data: d }, 1, p3)),
                        },
                    },
                }
            } else if opcode == 12 || opcode == 13 {
                match spec_len_at(data, p, octet) {
                    Err(e) => Err(e),
                    Ok((len, p1)) => match spec_decode_id(data, p1, sid) {
                        Err(e) => Err(e),
                        Ok((obj, p2)) => match spec_decode_id(data, p2, sid) {
                            Err(e) => Err(e),
                            Ok((reference, p3)) => match spec_bytes_at(data, p3, len as usize) {
                                Err(e) => Err(e),
                                Ok((bytes, p4)) => if opcode == 13 {
                                    Ok(
                                        (opcode, OpView::InsBin { id: op_id, obj, reference, data: bytes }, (len as usize) as u64, p4),
                                    )
                                } else if valid_utf8(bytes) {
                                    Ok(
                                        (
                                            opcode,
                                            OpView::InsStr { id: op_id, obj, reference, data: decode_utf8(bytes) },
                                            decode_utf8(bytes).len() as u64,
                                            p4,
                                        ),
                                    )
                                } else {
                                    Err(PatchError::InvalidCbor)
                                },
                            },
                        },
                    },
                }
            } else if opcode == 14 {
                match spec_len_at(data, p, octet) {
                    Err(e) => Err(e),
                    Ok((len, p1)) => match spec_decode_id(data, p1, sid) {
                        Err(e) => Err(e),
                        Ok((obj, p2)) => match spec_decode_id(data, p2, sid) {
                            Err(e) => Err(e),
                            Ok((reference, p3)) => match spec_ids(data, p3, len as nat, sid) {
                                Err(e) => Err(e),
                                Ok((d, p4)) => Ok(
                                    (opcode, OpView::InsArr { id: op_id, obj, reference, data: d }, len, p4),
                                ),
                            },
                        },
                    },
                }
            } else if opcode == 15 {
                match spec_decode_id(data, p, sid) {
                    Err(e) => Err(e),
                    Ok((obj, p1)) => match spec_decode_id(data, p1, sid) {
                        Err(e) => Err(e),
                        Ok((reference, p2)) => match spec_decode_id(data, p2, sid) {
                            Err(e) => Err(e),
                            Ok((val, p3)) => Ok(
                                (opcode, OpView::UpdArr { id: op_id, obj, reference, val }, 1, p3),
                            ),
                        },
                    },
                }
            } else if opcode == 16 {
                match spec_len_at(data, p, octet) {
                    Err(e) => Err(e),
                    Ok((len, p1)) => match spec_decode_id(data, p1, sid) {
                        Err(e) => Err(e),
                        Ok((obj, p2)) => match spec_spans(data, p2, len as nat, sid) {
                            Err(e) => Err(e),
                            Ok((w, p3)) => Ok((opcode, OpView::Del { id: op_id, obj, what: w }, 1, p3)),
                        },
                    },
                }
            } else if opcode == 17 {
                match spec_len_at(data, p, octet) {
                    Err(e) => Err(e),
                    Ok((len, p1)) => Ok((opcode, OpView::Nop { id: op_id, len }, len, p1)),
                }
            } else {
                Err(PatchError::UnknownOpcode(opcode))
            }
        },
    }
}

/// `k` operations from `pos`, the first with time `op_time`: the opcodes,
/// contents and spans, the total span and the position after them.
pub open spec fn spec_decode_ops(data: Seq<u8>, pos: int, k: nat, sid: u64, op_time: u64) -> Result<
    (Seq<(u8, OpView, u64)>, u64, int),
    PatchError,
>
    decreases k,
{
    if k == 0 {
        Ok((Seq::empty(), 0, pos))
    } else {
        match spec_decode_op(data, pos, sid, Timestamp { sid, time: op_time }) {
            Err(e) => Err(e),
            Ok((c, op, span, p)) => if op_time + span > u64::MAX {
                Err(PatchError::Overflow)
            } else {
                match spec_decode_ops(data, p, (k - 1) as nat, sid, (op_time + span) as u64) {
                    Err(e) => Err(e),
                    Ok((rest, total, end)) => if span + total > u64::MAX {
                        Err(PatchError::Overflow)
                    } else {
                        Ok((seq![(c, op, span)] + rest, (span + total) as u64, end))
                    },
                }
            },
        }
    }
}

/// The header of a patch: session id, time, the position after the metadata
/// item and the operation count, and the position after it.
pub open spec fn spec_patch_header(data: Seq<u8>) -> Result<(u64, u64, u64, int), PatchError> {
    match spec_vu57_at(data, 0) {
        Err(e) => Err(e),
        Ok((sid, p1)) => match spec_vu57_at(data, p1) {
            Err(e) => Err(e),
            Ok((time, p2)) => match spec_cbor_at(data, p2) {
                Err(e) => Err(e),
                Ok((_, p3)) => match spec_vu57_at(data, p3) {
                    Err(e) => Err(e),
                    Ok((n, p4)) => Ok((sid, time, n, p4)),
                },
            },
        },
    }
}

/// A whole patch as the bytes describe it: session id, time, operation count,
/// operations, total span and the position after the last operation.
pub open spec fn spec_decode_patch(data: Seq<u8>) -> Result<
    (u64, u64, u64, Seq<(u8, OpView, u64)>, u64, int),
    PatchError,
> {
    match spec_patch_header(data) {
        Err(e) => Err(e),
        Ok((sid, time, n, p)) => match spec_decode_ops(data, p, n as nat, sid, time) {
            Err(e) => Err(e),
            Ok((ops, span, end)) => Ok((sid, time, n, ops, span, end)),
        },
    }
}

// ---------------------------------------------------------------------------
// The reader
// ---------------------------------------------------------------------------

struct Reader<'a> {
    data: &'a [u8],
    pos: usize,
}

impl<'a> Reader<'a> {
    spec fn wf(&self) -> bool {
        self.pos <= self.data@.len()
    }

    fn new(data: &'a [u8]) -> (res: Self)
        ensures
            res.data@ == data@,
            res.pos == 0,
    {
        Reader { data, pos: 0 }
    }

    fn is_eof(&self) -> (res: bool)
        ensures
            res == (self.pos == self.data@.len()),
    {
        self.pos == self.data.len()
    }

    fn remaining(&self) -> (res: usize)
        ensures
            res == if self.pos <= self.data@.len() {
                self.data@.len() - self.pos
            } else {
                0
            },
    {
        if self.pos <= self.data.len() {
            self.data.len() - self.pos
        } else {
            0
        }
    }

    fn u8(&mut self) -> (res: Result<u8, PatchError>)
        requires
            old(self).wf(),
        ensures
            final(self).wf(),
            final(self).data@ == old(self).data@,
            match res {
                Ok(b) => spec_u8_at(old(self).data@, old(self).pos as int) == Ok::<(u8, int), PatchError>(
                    (b, final(self).pos as int),
                ),
                Err(e) => spec_u8_at(old(self).data@, old(self).pos as int) == Err::<(u8, int), PatchError>(e),
            },
    {
        if self.remaining() < 1 {
            return Err(PatchError::Overflow);
        }
        let b = self.data[self.pos];
        self.pos = self.pos + 1;
        Ok(b)
    }

    fn read_bytes(&mut self, n: usize) -> (res: Result<Vec<u8>, PatchError>)
        requires
            old(self).wf(),
        ensures
            final(self).wf(),
            final(self).data@ == old(self).data@,
            match res {
                Ok(b) => spec_bytes_at(old(self).data@, old(self).pos as int, n) == Ok::<(Seq<u8>, int), PatchError>(
                    (b@, final(self).pos as int),
                ),
                Err(e) => spec_bytes_at(old(self).data@, old(self).pos as int, n) == Err::<(Seq<u8>, int), PatchError>(e),
            },
    {
        if self.data.len() - self.pos < n {
            return Err(PatchError::Overflow);
        }
        let start = self.pos;
        self.pos = self.pos + n;
        let s = vstd::slice::slice_subrange(self.data, start, start + n);
        Ok(vstd::slice::slice_to_vec(s))
    }

    fn vu57(&mut self) -> (res: Result<u64, PatchError>)
        requires
            old(self).wf(),
        ensures
            final(self).wf(),
            final(self).data@ == old(self).data@,
            match res {
                Ok(v) => spec_vu57_at(old(self).data@, old(self).pos as int) == Ok::<(u64, int), PatchError>(
                    (v, final(self).pos as int),
                ),
                Err(e) => spec_vu57_at(old(self).data@, old(self).pos as int) == Err::<(u64, int), PatchError>(e),
            },
    {
        let mut pos = self.pos;
        let r = read_vu57(self.data, &mut pos);
        proof {
            lemma_read_vu57_pos(self.data@, self.pos as int);
        }
        self.pos = pos;
        match r {
            Some(v) => Ok(v),
            None => Err(PatchError::Overflow),
        }
    }

    fn b1vu56(&mut self) -> (res: Result<(u8, u64), PatchError>)
        requires
            old(self).wf(),
        ensures
            final(self).wf(),
            final(self).data@ == old(self).data@,
            match res {
                Ok(v) => spec_read_b1vu56(old(self).data@, old(self).pos as int) == (
                Some(v), final(self).pos as int),
                Err(e) => spec_read_b1vu56(old(self).data@, old(self).pos as int).0 is None && e
                    == PatchError::Overflow,
            },
    {
        let mut pos = self.pos;
        let r = read_b1vu56(self.data, &mut pos);
        proof {
            lemma_read_b1vu56_pos(self.data@, self.pos as int);
        }
        self.pos = pos;
        match r {
            Some(v) => Ok(v),
            None => Err(PatchError::Overflow),
        }
    }

    fn decode_id(&mut self, patch_sid: u64) -> (res: Result<Timestamp, PatchError>)
        requires
            old(self).wf(),
        ensures
            final(self).wf(),
            final(self).data@ == old(self).data@,
            match res {
                Ok(t) => spec_decode_id(old(self).data@, old(self).pos as int, patch_sid) == Ok::<(Timestamp, int), PatchError>(
                    (t, final(self).pos as int),
                ),
                Err(e) => spec_decode_id(old(self).data@, old(self).pos as int, patch_sid) == Err::<(Timestamp, int), PatchError>(e),
            },
    {
        let (flag, time) = match self.b1vu56() {
            Ok(v) => v,
            Err(e) => return Err(e),
        };
        if flag == 1 {
            let sid = match self.vu57() {
                Ok(v) => v,
                Err(e) => return Err(e),
            };
            Ok(Timestamp { sid, time })
        } else {
            Ok(Timestamp { sid: patch_sid, time })
        }
    }

    fn read_cbor(&mut self) -> (res: Result<CborRead, PatchError>)
        requires
            old(self).wf(),
        ensures
            final(self).wf(),
            final(self).data@ == old(self).data@,
            match res {
                Ok(CborRead::Text(s, _)) => spec_cbor_at(old(self).data@, old(self).pos as int)
                    == Ok::<(CborHead, int), PatchError>((CborHead::Text(s@), final(self).pos as int)),
                Ok(CborRead::Integer(i, _)) => spec_cbor_at(old(self).data@, old(self).pos as int)
                    == Ok::<(CborHead, int), PatchError>((CborHead::Integer(i as int), final(self).pos as int)),
                Ok(CborRead::Other(v, _)) => spec_cbor_at(old(self).data@, old(self).pos as int)
                    == Ok::<(CborHead, int), PatchError>((CborHead::Other(v), final(self).pos as int)),
                Err(e) => spec_cbor_at(old(self).data@, old(self).pos as int) == Err::<(CborHead, int), PatchError>(e),
            },
            ({
                let rest = rest_at(old(self).data@, old(self).pos as int);
                match res {
                    Ok(CborRead::Text(s, _)) => forall|j: JsonView| #![trigger json_cbor_bytes(j)]
                        json_fit(j, 257) && starts_with(rest, json_cbor_bytes(j)) ==> j == JsonView::String(s@)
                            && final(self).pos == old(self).pos + json_cbor_bytes(j).len(),
                    Ok(CborRead::Integer(i, _)) => forall|j: JsonView| #![trigger json_cbor_bytes(j)]
                        json_fit(j, 257) && starts_with(rest, json_cbor_bytes(j)) ==> spec_int_to_json(i as int)
                            == Some(j->Number_0) && j is Number && final(self).pos == old(self).pos + json_cbor_bytes(j).len(),
                    Ok(CborRead::Other(v, _)) => forall|j: JsonView| #![trigger json_cbor_bytes(j)]
                        json_fit(j, 257) && starts_with(rest, json_cbor_bytes(j)) ==> cbor_json(v, 257) == Some(j)
                            && !(j is String) && final(self).pos == old(self).pos + json_cbor_bytes(j).len(),
                    Err(_) => forall|j: JsonView| #![trigger json_cbor_bytes(j)]
                        !(json_fit(j, 257) && starts_with(rest, json_cbor_bytes(j))),
                }
            }),
            match res {
                Ok(CborRead::Other(_, _)) => old(self).pos < old(self).data@.len() && old(self).data@[old(self).pos as int] == 0xf7
                    ==> final(self).pos == old(self).pos + 1,
                _ => !(old(self).pos < old(self).data@.len() && old(self).data@[old(self).pos as int] == 0xf7),
            },
    {
        let slice = vstd::slice::slice_subrange(self.data, self.pos, self.data.len());
        proof {
            if self.pos < self.data@.len() {
                assert(slice@[0] == self.data@[self.pos as int]);
            }
        }
        let r = cbor_read_one(slice);
        match r {
            None => Err(PatchError::InvalidCbor),
            Some(item) => {
                let n = match &item {
                    CborRead::Text(_, n) => *n,
                    CborRead::Integer(_, n) => *n,
                    CborRead::Other(_, n) => *n,
                };
                self.pos = self.pos + n;
                Ok(item)
            },
        }
    }
}

fn read_len_from_low3_or_var(reader: &mut Reader, octet: u8) -> (res: Result<u64, PatchError>)
    requires
        old(reader).wf(),
    ensures
        final(reader).wf(),
        final(reader).data@ == old(reader).data@,
        match res {
            Ok(v) => spec_len_at(old(reader).data@, old(reader).pos as int, octet) == Ok::<(u64, int), PatchError>(
                (v, final(reader).pos as int),
            ),
            Err(e) => spec_len_at(old(reader).data@, old(reader).pos as int, octet) == Err::<(u64, int), PatchError>(e),
        },
{
    let low = (octet & 7) as u64;
    if low == 0 {
        reader.vu57()
    } else {
        Ok(low)
    }
}


/// The object entries with their keys as character sequences.
pub open spec fn obj_data_view(v: Seq<(String, Timestamp)>) -> Seq<(Seq<char>, Timestamp)> {
    v.map_values(|e: (String, Timestamp)| (e.0@, e.1))
}

fn read_obj_entries(reader: &mut Reader, len: u64, sid: u64) -> (res: Result<
    Vec<(String, Timestamp)>,
    PatchError,
>)
    requires
        old(reader).wf(),
    ensures
        final(reader).wf(),
        final(reader).data@ == old(reader).data@,
        match res {
            Ok(v) => spec_obj_entries(old(reader).data@, old(reader).pos as int, len as nat, sid)
                == Ok::<(Seq<(Seq<char>, Timestamp)>, int), PatchError>(
                (obj_data_view(v@), final(reader).pos as int),
            ),
            Err(e) => spec_obj_entries(old(reader).data@, old(reader).pos as int, len as nat, sid)
                == Err::<(Seq<(Seq<char>, Timestamp)>, int), PatchError>(e),
        },
        forall|es: Seq<(Seq<char>, Timestamp)>| #![trigger obj_entries_bytes(sid, es)]
            es.len() == len && obj_entries_fit(es) && starts_with(rest_at(old(reader).data@, old(reader).pos as int), obj_entries_bytes(sid, es))
                ==> spec_obj_entries(old(reader).data@, old(reader).pos as int, len as nat, sid)
                == Ok::<(Seq<(Seq<char>, Timestamp)>, int), PatchError>((es, old(reader).pos + obj_entries_bytes(sid, es).len())),
{
    let ghost d0 = reader.data@;
    let ghost p0 = reader.pos as int;
    let mut out: Vec<(String, Timestamp)> = Vec::new();
    let mut i: u64 = 0;
    proof {
        assert forall|es: Seq<(Seq<char>, Timestamp)>| #![trigger obj_entries_bytes(sid, es)]
            es.len() == len && obj_entries_fit(es) && starts_with(rest_at(d0, p0), obj_entries_bytes(sid, es)) implies
            starts_with(rest_at(d0, p0), obj_entries_bytes(sid, es.skip(0))) && obj_data_view(out@) == es.take(0)
            && p0 + obj_entries_bytes(sid, es.skip(0)).len() == p0 + obj_entries_bytes(sid, es).len() by {
            assert(es.skip(0) =~= es);
            assert(es.take(0) =~= Seq::<(Seq<char>, Timestamp)>::empty());
            assert(obj_data_view(out@) =~= Seq::<(Seq<char>, Timestamp)>::empty());
        }
    }
    while i < len
        invariant
            reader.wf(),
            reader.data@ == d0,
            d0 == old(reader).data@,
            p0 == old(reader).pos as int,
            i <= len,
            spec_obj_entries(d0, p0, len as nat, sid) == match spec_obj_entries(
                d0,
                reader.pos as int,
                (len - i) as nat,
                sid,
            ) {
                Ok((rest, end)) => Ok((obj_data_view(out@) + rest, end)),
                Err(e) => Err(e),
            },
            forall|es: Seq<(Seq<char>, Timestamp)>| #![trigger obj_entries_bytes(sid, es)]
                es.len() == len && obj_entries_fit(es) && starts_with(rest_at(d0, p0), obj_entries_bytes(sid, es)) ==>
                starts_with(rest_at(d0, reader.pos as int), obj_entries_bytes(sid, es.skip(i as int)))
                && obj_data_view(out@) == es.take(i as int)
                && reader.pos + obj_entries_bytes(sid, es.skip(i as int)).len() == p0 + obj_entries_bytes(sid, es).len(),
        decreases len - i,
    {
        let ghost pb = reader.pos as int;
        proof {
            assert forall|es: Seq<(Seq<char>, Timestamp)>| #![trigger obj_entries_bytes(sid, es)]
                es.len() == len && obj_entries_fit(es) && starts_with(rest_at(d0, p0), obj_entries_bytes(sid, es)) implies
                starts_with(rest_at(d0, pb), json_cbor_bytes(JsonView::String(es[i as int].0)))
                && crate::cbor::json_fit(JsonView::String(es[i as int].0), 257) by {
                lemma_obj_cand(d0, sid, es, i as int, pb);
            }
        }
        let key = match reader.read_cbor() {
            Ok(CborRead::Text(s, _)) => s,
            Ok(_) => {
                proof {
                    assert forall|es: Seq<(Seq<char>, Timestamp)>| #![trigger obj_entries_bytes(sid, es)]
                        es.len() == len && obj_entries_fit(es) && starts_with(rest_at(d0, p0), obj_entries_bytes(sid, es)) implies
                        false by {
                        assert(starts_with(rest_at(d0, pb), json_cbor_bytes(JsonView::String(es[i as int].0))));
                    }
                }
                return Err(PatchError::InvalidCbor);
            },
            Err(e) => {
                proof {
                    assert forall|es: Seq<(Seq<char>, Timestamp)>| #![trigger obj_entries_bytes(sid, es)]
                        es.len() == len && obj_entries_fit(es) && starts_with(rest_at(d0, p0), obj_entries_bytes(sid, es)) implies
                        false by {
                        assert(starts_with(rest_at(d0, pb), json_cbor_bytes(JsonView::String(es[i as int].0))));
                    }
                }
                return Err(e);
            },
        };
        let ghost pk = reader.pos as int;
        proof {
            assert forall|es: Seq<(Seq<char>, Timestamp)>| #![trigger obj_entries_bytes(sid, es)]
                es.len() == len && obj_entries_fit(es) && starts_with(rest_at(d0, p0), obj_entries_bytes(sid, es)) implies
                key@ == es[i as int].0 && pk == pb + cbor_text_bytes(es[i as int].0).len()
                && spec_decode_id(d0, pk, sid) == Ok::<(Timestamp, int), PatchError>((es[i as int].1, pk + id_bytes(sid, es[i as int].1).len())) by {
                assert(starts_with(rest_at(d0, pb), json_cbor_bytes(JsonView::String(es[i as int].0))));
                lemma_obj_cand(d0, sid, es, i as int, pb);
            }
        }
        let value = match reader.decode_id(sid) {
            Ok(v) => v,
            Err(e) => {
                proof {
                    assert forall|es: Seq<(Seq<char>, Timestamp)>| #![trigger obj_entries_bytes(sid, es)]
                        es.len() == len && obj_entries_fit(es) && starts_with(rest_at(d0, p0), obj_entries_bytes(sid, es)) implies
                        false by {
                        lemma_obj_cand(d0, sid, es, i as int, pb);
                        assert(starts_with(rest_at(d0, pb), json_cbor_bytes(JsonView::String(es[i as int].0))));
                        assert(pk == pb + cbor_text_bytes(es[i as int].0).len());
                        assert(spec_decode_id(d0, pk, sid) is Ok);
                    }
                }
                return Err(e);
            },
        };
        let ghost o0 = out@;
        out.push((key, value));
        proof {
            assert(obj_data_view(out@) =~= obj_data_view(o0).push((key@, value)));
            match spec_obj_entries(d0, reader.pos as int, (len - i - 1) as nat, sid) {
                Ok((rest, end)) => {
                    assert(obj_data_view(o0) + (seq![(key@, value)] + rest) =~= obj_data_view(out@)
                        + rest);
                },
                Err(_) => {},
            }
            assert forall|es: Seq<(Seq<char>, Timestamp)>| #![trigger obj_entries_bytes(sid, es)]
                es.len() == len && obj_entries_fit(es) && starts_with(rest_at(d0, p0), obj_entries_bytes(sid, es)) implies
                starts_with(rest_at(d0, reader.pos as int), obj_entries_bytes(sid, es.skip(i + 1)))
                && obj_data_view(out@) == es.take(i + 1)
                && reader.pos + obj_entries_bytes(sid, es.skip(i + 1)).len() == p0 + obj_entries_bytes(sid, es).len() by {
                lemma_obj_cand(d0, sid, es, i as int, pb);
                assert(es.take(i + 1) =~= es.take(i as int).push(es[i as int]));
            }
        }
        i = i + 1;
    }
    assert(obj_data_view(out@) + Seq::<(Seq<char>, Timestamp)>::empty() =~= obj_data_view(out@));
    proof {
        assert forall|es: Seq<(Seq<char>, Timestamp)>| #![trigger obj_entries_bytes(sid, es)]
            es.len() == len && obj_entries_fit(es) && starts_with(rest_at(d0, p0), obj_entries_bytes(sid, es)) implies
            obj_data_view(out@) == es && reader.pos == p0 + obj_entries_bytes(sid, es).len() by {
            assert(es.take(len as int) =~= es);
            assert(es.skip(len as int) =~= Seq::<(Seq<char>, Timestamp)>::empty());
        }
    }
    Ok(out)
}

/// The entry at `i` of object entries whose bytes the rest of `d0` from
/// `pos` starts with: its key's CBOR text comes first, then its identifier,
/// which decodes back, then the entries after it.
proof fn lemma_obj_cand(d0: Seq<u8>, sid: u64, es: Seq<(Seq<char>, Timestamp)>, i: int, pos: int)
    requires
        0 <= i < es.len(),
        0 <= pos <= d0.len(),
        obj_entries_fit(es),
        starts_with(rest_at(d0, pos), obj_entries_bytes(sid, es.skip(i))),
    ensures
        json_cbor_bytes(JsonView::String(es[i].0)) == cbor_text_bytes(es[i].0),
        crate::cbor::json_fit(JsonView::String(es[i].0), 257),
        starts_with(rest_at(d0, pos), json_cbor_bytes(JsonView::String(es[i].0))),
        spec_decode_id(d0, pos + cbor_text_bytes(es[i].0).len(), sid) == Ok::<(Timestamp, int), PatchError>(
            (es[i].1, pos + cbor_text_bytes(es[i].0).len() + id_bytes(sid, es[i].1).len()),
        ),
        starts_with(rest_at(d0, pos + cbor_text_bytes(es[i].0).len() + id_bytes(sid, es[i].1).len()), obj_entries_bytes(sid, es.skip(i + 1))),
        obj_entries_bytes(sid, es.skip(i)).len() == cbor_text_bytes(es[i].0).len() + id_bytes(sid, es[i].1).len()
            + obj_entries_bytes(sid, es.skip(i + 1)).len(),
{
    let rest = es.skip(i);
    assert(rest[0] == es[i]);
    lemma_obj_entries_bytes_cons(sid, rest);
    assert(rest.drop_first() =~= es.skip(i + 1));
    let tb = cbor_text_bytes(es[i].0);
    let ib = id_bytes(sid, es[i].1);
    let ob = obj_entries_bytes(sid, es.skip(i + 1));
    let all = obj_entries_bytes(sid, rest);
    assert(all == tb + ib + ob);
    let r = rest_at(d0, pos);
    assert(r.subrange(0, tb.len() as int) =~= all.subrange(0, tb.len() as int));
    assert(all.subrange(0, tb.len() as int) =~= tb);
    let pre = d0.take(pos + tb.len());
    let suf = d0.subrange(pos + tb.len() + ib.len(), d0.len() as int);
    assert(d0.subrange(pos + tb.len(), pos + tb.len() + ib.len()) =~= all.subrange(tb.len() as int, (tb.len() + ib.len()) as int));
    assert(all.subrange(tb.len() as int, (tb.len() + ib.len()) as int) =~= ib);
    assert(d0 =~= pre + ib + suf);
    assert(id_fits(es[i].1));
    crate::patch_builder::lemma_id_roundtrip(sid, es[i].1, pre, suf);
    let r2 = rest_at(d0, pos + tb.len() + ib.len());
    assert(r2.subrange(0, ob.len() as int) =~= all.subrange((tb.len() + ib.len()) as int, all.len() as int));
    assert(all.subrange((tb.len() + ib.len()) as int, all.len() as int) =~= ob);
}

fn read_vec_entries(reader: &mut Reader, len: u64, sid: u64) -> (res: Result<
    Vec<(u64, Timestamp)>,
    PatchError,
>)
    requires
        old(reader).wf(),
    ensures
        final(reader).wf(),
        final(reader).data@ == old(reader).data@,
        match res {
            Ok(v) => spec_vec_entries(old(reader).data@, old(reader).pos as int, len as nat, sid)
                == Ok::<(Seq<(u64, Timestamp)>, int), PatchError>((v@, final(reader).pos as int)),
            Err(e) => spec_vec_entries(old(reader).data@, old(reader).pos as int, len as nat, sid)
                == Err::<(Seq<(u64, Timestamp)>, int), PatchError>(e),
        },
{
    let ghost d0 = reader.data@;
    let ghost p0 = reader.pos as int;
    let mut out: Vec<(u64, Timestamp)> = Vec::new();
    let mut i: u64 = 0;
    while i < len
        invariant
            reader.wf(),
            reader.data@ == d0,
            d0 == old(reader).data@,
            p0 == old(reader).pos as int,
            i <= len,
            spec_vec_entries(d0, p0, len as nat, sid) == match spec_vec_entries(
                d0,
                reader.pos as int,
                (len - i) as nat,
                sid,
            ) {
                Ok((rest, end)) => Ok((out@ + rest, end)),
                Err(e) => Err(e),
            },
        decreases len - i,
    {
        let idx = match reader.u8() {
            Ok(b) => b as u64,
            Err(e) => return Err(e),
        };
        let value = match reader.decode_id(sid) {
            Ok(v) => v,
            Err(e) => return Err(e),
        };
        let ghost o0 = out@;
        out.push((idx, value));
        proof {
            match spec_vec_entries(d0, reader.pos as int, (len - i - 1) as nat, sid) {
                Ok((rest, end)) => {
                    assert(o0 + (seq![(idx, value)] + rest) =~= out@ + rest);
                },
                Err(_) => {},
            }
        }
        i = i + 1;
    }
    assert(out@ + Seq::<(u64, Timestamp)>::empty() =~= out@);
    Ok(out)
}

fn read_ids(reader: &mut Reader, len: u64, sid: u64) -> (res: Result<Vec<Timestamp>, PatchError>)
    requires
        old(reader).wf(),
    ensures
        final(reader).wf(),
        final(reader).data@ == old(reader).data@,
        match res {
            Ok(v) => spec_ids(old(reader).data@, old(reader).pos as int, len as nat, sid) == Ok::<
                (Seq<Timestamp>, int),
                PatchError,
            >((v@, final(reader).pos as int)),
            Err(e) => spec_ids(old(reader).data@, old(reader).pos as int, len as nat, sid) == Err::<
                (Seq<Timestamp>, int),
                PatchError,
            >(e),
        },
{
    let ghost d0 = reader.data@;
    let ghost p0 = reader.pos as int;
    let mut out: Vec<Timestamp> = Vec::new();
    let mut i: u64 = 0;
    while i < len
        invariant
            reader.wf(),
            reader.data@ == d0,
            d0 == old(reader).data@,
            p0 == old(reader).pos as int,
            i <= len,
            spec_ids(d0, p0, len as nat, sid) == match spec_ids(
                d0,
                reader.pos as int,
                (len - i) as nat,
                sid,
            ) {
                Ok((rest, end)) => Ok((out@ + rest, end)),
                Err(e) => Err(e),
            },
        decreases len - i,
    {
        let value = match reader.decode_id(sid) {
            Ok(v) => v,
            Err(e) => return Err(e),
        };
        let ghost o0 = out@;
        out.push(value);
        proof {
            match spec_ids(d0, reader.pos as int, (len - i - 1) as nat, sid) {
                Ok((rest, end)) => {
                    assert(o0 + (seq![value] + rest) =~= out@ + rest);
                },
                Err(_) => {},
            }
        }
        i = i + 1;
    }
    assert(out@ + Seq::<Timestamp>::empty() =~= out@);
    Ok(out)
}

fn read_spans(reader: &mut Reader, len: u64, sid: u64) -> (res: Result<Vec<Timespan>, PatchError>)
    requires
        old(reader).wf(),
    ensures
        final(reader).wf(),
        final(reader).data@ == old(reader).data@,
        match res {
            Ok(v) => spec_spans(old(reader).data@, old(reader).pos as int, len as nat, sid) == Ok::<
                (Seq<Timespan>, int),
                PatchError,
            >((v@, final(reader).pos as int)),
            Err(e) => spec_spans(old(reader).data@, old(reader).pos as int, len as nat, sid) == Err::<
                (Seq<Timespan>, int),
                PatchError,
            >(e),
        },
{
    let ghost d0 = reader.data@;
    let ghost p0 = reader.pos as int;
    let mut out: Vec<Timespan> = Vec::new();
    let mut i: u64 = 0;
    while i < len
        invariant
            reader.wf(),
            reader.data@ == d0,
            d0 == old(reader).data@,
            p0 == old(reader).pos as int,
            i <= len,
            spec_spans(d0, p0, len as nat, sid) == match spec_spans(
                d0,
                reader.pos as int,
                (len - i) as nat,
                sid,
            ) {
                Ok((rest, end)) => Ok((out@ + rest, end)),
                Err(e) => Err(e),
            },
        decreases len - i,
    {
        let start = match reader.decode_id(sid) {
            Ok(v) => v,
            Err(e) => return Err(e),
        };
        let span = match reader.vu57() {
            Ok(v) => v,
            Err(e) => return Err(e),
        };
        let t = Timespan { sid: start.sid, time: start.time, span };
        let ghost o0 = out@;
        out.push(t);
        proof {
            match spec_spans(d0, reader.pos as int, (len - i - 1) as nat, sid) {
                Ok((rest, end)) => {
                    assert(o0 + (seq![t] + rest) =~= out@ + rest);
                },
                Err(_) => {},
            }
        }
        i = i + 1;
    }
    assert(out@ + Seq::<Timespan>::empty() =~= out@);
    Ok(out)
}

/// What decoding the next operation of a patch that reads back gives, from
/// what decoding at its place is known to give for constants and object
/// insertions.
proof fn lemma_cand_read(d0: Seq<u8>, s: u64, t: u64, ops: Seq<OpView>, i: int, pos: int, sid: u64, op_time: u64)
    requires
        patch_reads_back(s, t, ops),
        0 <= i < ops.len(),
        0 <= pos <= d0.len(),
        rest_at(d0, pos) == ops_bytes(sid, ops.skip(i)),
        ids_follow(sid, op_time as int, ops.skip(i)),
        op_time + total_span(ops.skip(i)) <= u64::MAX,
        pos < d0.len() && d0[pos] == 0 ==> forall|j: JsonView| #![trigger json_cbor_bytes(j)]
            json_fit(j, 257) && starts_with(rest_at(d0, pos), seq![0u8] + json_cbor_bytes(j))
                ==> spec_decode_op(d0, pos, sid, (Timestamp { sid, time: op_time })) == Ok::<(u8, OpView, u64, int), PatchError>(
                (0u8, OpView::NewCon { id: (Timestamp { sid, time: op_time }), value: ConView::Known(j) }, 1u64, pos + 1 + json_cbor_bytes(j).len()),
            ),
        pos < d0.len() && d0[pos] >> 3u8 == 10 ==> forall|op: OpView|
            #![trigger op_bytes(sid, op)] (op is InsObj) && op_reads_back(op) && spec_op_id(op) == (Timestamp { sid, time: op_time })
            && starts_with(rest_at(d0, pos), op_bytes(sid, op)) ==> spec_decode_op(d0, pos, sid, (Timestamp { sid, time: op_time }))
            == crate::patch_builder::op_read_back(sid, op, pos),
    ensures
        spec_decode_op(d0, pos, sid, (Timestamp { sid, time: op_time })) == crate::patch_builder::op_read_back(sid, ops[i], pos),
{
    lemma_cand_step(d0, s, t, ops, i, pos, sid, op_time);
    let op0 = ops[i];
    if !op_roundtrips(op0) {
        if op0 is NewCon {
            let j = op0->NewCon_value->Known_0;
            assert(starts_with(rest_at(d0, pos), seq![0u8] + json_cbor_bytes(j)));
        } else {
            assert(op0 is InsObj);
            lemma_ins_obj_layout(d0, pos, sid, op0);
        }
    }
}

/// The layout of an object insertion that reads back, at `pos`: its head
/// gives opcode 10 and the entry count, then its object's identifier, then
/// its entries.
proof fn lemma_ins_obj_layout(data: Seq<u8>, pos: int, sid: u64, op: OpView)
    requires
        (op is InsObj),
        op_reads_back(op),
        0 <= pos <= data.len(),
        starts_with(rest_at(data, pos), op_bytes(sid, op)),
    ensures
        ({
            let obj = op->InsObj_obj;
            let es = op->InsObj_data;
            let head = crate::patch_builder::op_head_bytes(10, es.len() as u64);
            let p1 = pos + head.len();
            let p2 = p1 + id_bytes(sid, obj).len();
            &&& pos < data.len()
            &&& data[pos] >> 3u8 == 10
            &&& spec_len_at(data, pos + 1, data[pos]) == Ok::<(u64, int), PatchError>((es.len() as u64, p1))
            &&& spec_decode_id(data, p1, sid) == Ok::<(Timestamp, int), PatchError>((obj, p2))
            &&& starts_with(rest_at(data, p2), obj_entries_bytes(sid, es))
            &&& p2 + obj_entries_bytes(sid, es).len() == pos + op_bytes(sid, op).len()
            &&& obj_entries_fit(es)
        }),
{
    let obj = op->InsObj_obj;
    let es = op->InsObj_data;
    let head = crate::patch_builder::op_head_bytes(10, es.len() as u64);
    let ia = id_bytes(sid, obj);
    let body = obj_entries_bytes(sid, es);
    let ob = op_bytes(sid, op);
    assert(ob == head + ia + body);
    let pre = data.take(pos);
    let suf = data.subrange(pos + ob.len(), data.len() as int);
    assert(rest_at(data, pos).subrange(0, ob.len() as int) == ob);
    assert(data =~= pre + (head + ia + body) + suf);
    crate::patch_builder::lemma_list_head(sid, 10, es.len() as u64, obj, body, pre, suf);
    let p2 = pos + head.len() + ia.len();
    assert(rest_at(data, p2).subrange(0, body.len() as int) =~= body);
}

/// Decodes the operation at the reader's position, with identifier `op_id`:
/// its opcode, the operation and the clock ticks it takes.
#[verifier::rlimit(60)]
#[verifier::spinoff_prover]
fn decode_op(reader: &mut Reader, patch_sid: u64, op_id: Timestamp) -> (res: Result<
    (u8, DecodedOp, u64),
    PatchError,
>)
    requires
        old(reader).wf(),
    ensures
        final(reader).wf(),
        final(reader).data@ == old(reader).data@,
        match res {
            Ok((c, op, span)) => match spec_decode_op(
                old(reader).data@,
                old(reader).pos as int,
                patch_sid,
                op_id,
            ) {
                Ok((c2, v, s2, p)) => c == c2 && op.op_view() == v && span == s2 && p
                    == final(reader).pos,
                Err(_) => false,
            },
            Err(e) => spec_decode_op(old(reader).data@, old(reader).pos as int, patch_sid, op_id)
                == Err::<(u8, OpView, u64, int), PatchError>(e),
        },
        old(reader).pos < old(reader).data@.len() && old(reader).data@[old(reader).pos as int] == 0 ==> forall|j: JsonView| #![trigger json_cbor_bytes(j)]
            json_fit(j, 257) && starts_with(rest_at(old(reader).data@, old(reader).pos as int), seq![0u8] + json_cbor_bytes(j))
                ==> spec_decode_op(old(reader).data@, old(reader).pos as int, patch_sid, op_id) == Ok::<(u8, OpView, u64, int), PatchError>(
                (0u8, OpView::NewCon { id: op_id, value: ConView::Known(j) }, 1u64, old(reader).pos + 1 + json_cbor_bytes(j).len()),
            ),
        old(reader).pos < old(reader).data@.len() && old(reader).data@[old(reader).pos as int] >> 3u8 == 10 ==> forall|op: OpView|
            #![trigger op_bytes(patch_sid, op)] (op is InsObj) && op_reads_back(op) && spec_op_id(op) == op_id && starts_with(
            rest_at(old(reader).data@, old(reader).pos as int), op_bytes(patch_sid, op)) ==> spec_decode_op(
            old(reader).data@, old(reader).pos as int, patch_sid, op_id) == crate::patch_builder::op_read_back(patch_sid, op, old(reader).pos as int),
{
    let ghost d = reader.data@;
    let ghost p0 = reader.pos as int;
    let octet = match reader.u8() {
        Ok(v) => v,
        Err(e) => return Err(e),
    };
    assert(octet == d[p0]);
    assert(octet == 0 <==> (octet >> 3u8 == 0 && octet & 7u8 == 0)) by (bit_vector);
    proof {
        assert forall|j: JsonView| #![trigger json_cbor_bytes(j)]
            json_fit(j, 257) && starts_with(rest_at(d, p0), seq![0u8] + json_cbor_bytes(j)) implies starts_with(rest_at(d, p0 + 1), json_cbor_bytes(j)) by {
            let b = seq![0u8] + json_cbor_bytes(j);
            assert(rest_at(d, p0).subrange(0, b.len() as int)[0] == d[p0]);
            assert(rest_at(d, p0 + 1).subrange(0, json_cbor_bytes(j).len() as int) =~= b.subrange(1, b.len() as int));
            assert(b.subrange(1, b.len() as int) =~= json_cbor_bytes(j));
        }
    }
    let opcode = octet >> 3;
    if opcode == 0 {
        if octet & 7 == 0 {
            let item = match reader.read_cbor() {
                Ok(v) => v,
                Err(e) => return Err(e),
            };
            let value = match item {
                CborRead::Text(s, _) => JsonValue::String(s),
                CborRead::Integer(i, _) => match int_to_json(i) {
                    Some(n) => JsonValue::Number(n),
                    None => return Err(PatchError::InvalidCbor),
                },
                CborRead::Other(v, _) => match cbor_to_json(&v, 257) {
                    Some(j) => j,
                    None => return Err(PatchError::InvalidCbor),
                },
            };
            return Ok((opcode, DecodedOp::NewCon { id: op_id, value: ConValue::Json(value) }, 1));
        } else {
            let r = match reader.decode_id(patch_sid) {
                Ok(v) => v,
                Err(e) => return Err(e),
            };
            return Ok((opcode, DecodedOp::NewCon { id: op_id, value: ConValue::Ref(r) }, 1));
        }
    }
    if opcode == 1 {
        return Ok((opcode, DecodedOp::NewVal { id: op_id }, 1));
    }
    if opcode == 2 {
        return Ok((opcode, DecodedOp::NewObj { id: op_id }, 1));
    }
    if opcode == 3 {
        return Ok((opcode, DecodedOp::NewVec { id: op_id }, 1));
    }
    if opcode == 4 {
        return Ok((opcode, DecodedOp::NewStr { id: op_id }, 1));
    }
    if opcode == 5 {
        return Ok((opcode, DecodedOp::NewBin { id: op_id }, 1));
    }
    if opcode == 6 {
        return Ok((opcode, DecodedOp::NewArr { id: op_id }, 1));
    }
    if opcode == 9 {
        let obj = match reader.decode_id(patch_sid) {
            Ok(v) => v,
            Err(e) => return Err(e),
        };
        let val = match reader.decode_id(patch_sid) {
            Ok(v) => v,
            Err(e) => return Err(e),
        };
        return Ok((opcode, DecodedOp::InsVal { id: op_id, obj, val }, 1));
    }
    if opcode == 10 {
        let len = match read_len_from_low3_or_var(reader, octet) {
            Ok(v) => v,
            Err(e) => {
                proof {
                    assert forall|op: OpView| #![trigger op_bytes(patch_sid, op)] op is InsObj && op_reads_back(op)
                        && spec_op_id(op) == op_id && starts_with(rest_at(d, p0), op_bytes(patch_sid, op)) implies false by {
                        lemma_ins_obj_layout(d, p0, patch_sid, op);
                    }
                }
                return Err(e);
            },
        };
        let obj = match reader.decode_id(patch_sid) {
            Ok(v) => v,
            Err(e) => {
                proof {
                    assert forall|op: OpView| #![trigger op_bytes(patch_sid, op)] op is InsObj && op_reads_back(op)
                        && spec_op_id(op) == op_id && starts_with(rest_at(d, p0), op_bytes(patch_sid, op)) implies false by {
                        lemma_ins_obj_layout(d, p0, patch_sid, op);
                    }
                }
                return Err(e);
            },
        };
        let ghost p2 = reader.pos as int;
        let data = match read_obj_entries(reader, len, patch_sid) {
            Ok(v) => v,
            Err(e) => {
                proof {
                    assert forall|op: OpView| #![trigger op_bytes(patch_sid, op)] op is InsObj && op_reads_back(op)
                        && spec_op_id(op) == op_id && starts_with(rest_at(d, p0), op_bytes(patch_sid, op)) implies false by {
                        lemma_ins_obj_layout(d, p0, patch_sid, op);
                        assert(starts_with(rest_at(d, p2), obj_entries_bytes(patch_sid, op->InsObj_data)));
                    }
                }
                return Err(e);
            },
        };
        proof {
            assert forall|op: OpView| #![trigger op_bytes(patch_sid, op)] op is InsObj && op_reads_back(op)
                && spec_op_id(op) == op_id && starts_with(rest_at(d, p0), op_bytes(patch_sid, op)) implies spec_decode_op(
                d, p0, patch_sid, op_id) == crate::patch_builder::op_read_back(patch_sid, op, p0) by {
                lemma_ins_obj_layout(d, p0, patch_sid, op);
                assert(starts_with(rest_at(d, p2), obj_entries_bytes(patch_sid, op->InsObj_data)));
            }
        }
        return Ok((opcode, DecodedOp::InsObj { id: op_id, obj, data }, 1));
    }
    if opcode == 11 {
        let len = match read_len_from_low3_or_var(reader, octet) {
            Ok(v) => v,
            Err(e) => return Err(e),
        };
        let obj = match reader.decode_id(patch_sid) {
            Ok(v) => v,
            Err(e) => return Err(e),
        };
        let data = match read_vec_entries(reader, len, patch_sid) {
            Ok(v) => v,
            Err(e) => return Err(e),
        };
        return Ok((opcode, DecodedOp::InsVec { id: op_id, obj, data }, 1));
    }
    if opcode == 12 {
        let len = match read_len_from_low3_or_var(reader, octet) {
            Ok(v) => v as usize,
            Err(e) => return Err(e),
        };
        let obj = match reader.decode_id(patch_sid) {
            Ok(v) => v,
            Err(e) => return Err(e),
        };
        let reference = match reader.decode_id(patch_sid) {
            Ok(v) => v,
            Err(e) => return Err(e),
        };
        let bytes = match reader.read_bytes(len) {
            Ok(v) => v,
            Err(e) => return Err(e),
        };
        let data = match from_utf8_bytes(bytes) {
            Some(s) => s,
            None => return Err(PatchError::InvalidCbor),
        };
        let span = data.as_str().unicode_len() as u64;
        return Ok((opcode, DecodedOp::InsStr { id: op_id, obj, reference, data }, span));
    }
    if opcode == 13 {
        let len = match read_len_from_low3_or_var(reader, octet) {
            Ok(v) => v as usize,
            Err(e) => return Err(e),
        };
        let obj = match reader.decode_id(patch_sid) {
            Ok(v) => v,
            Err(e) => return Err(e),
        };
        let reference = match reader.decode_id(patch_sid) {
            Ok(v) => v,
            Err(e) => return Err(e),
        };
        let data = match reader.read_bytes(len) {
            Ok(v) => v,
            Err(e) => return Err(e),
        };
        return Ok((opcode, DecodedOp::InsBin { id: op_id, obj, reference, data }, len as u64));
    }
    if opcode == 14 {
        let len = match read_len_from_low3_or_var(reader, octet) {
            Ok(v) => v,
            Err(e) => return Err(e),
        };
        let obj = match reader.decode_id(patch_sid) {
            Ok(v) => v,
            Err(e) => return Err(e),
        };
        let reference = match reader.decode_id(patch_sid) {
            Ok(v) => v,
            Err(e) => return Err(e),
        };
        let data = match read_ids(reader, len, patch_sid) {
            Ok(v) => v,
            Err(e) => return Err(e),
        };
        return Ok((opcode, DecodedOp::InsArr { id: op_id, obj, reference, data }, len));
    }
    if opcode == 15 {
        let obj = match reader.decode_id(patch_sid) {
            Ok(v) => v,
            Err(e) => return Err(e),
        };
        let reference = match reader.decode_id(patch_sid) {
            Ok(v) => v,
            Err(e) => return Err(e),
        };
        let val = match reader.decode_id(patch_sid) {
            Ok(v) => v,
            Err(e) => return Err(e),
        };
        return Ok((opcode, DecodedOp::UpdArr { id: op_id, obj, reference, val }, 1));
    }
    if opcode == 16 {
        let len = match read_len_from_low3_or_var(reader, octet) {
            Ok(v) => v,
            Err(e) => return Err(e),
        };
        let obj = match reader.decode_id(patch_sid) {
            Ok(v) => v,
            Err(e) => return Err(e),
        };
        let what = match read_spans(reader, len, patch_sid) {
            Ok(v) => v,
            Err(e) => return Err(e),
        };
        return Ok((opcode, DecodedOp::Del { id: op_id, obj, what }, 1));
    }
    if opcode == 17 {
        let len = match read_len_from_low3_or_var(reader, octet) {
            Ok(v) => v,
            Err(e) => return Err(e),
        };
        return Ok((opcode, DecodedOp::Nop { id: op_id, len }, len));
    }
    Err(PatchError::UnknownOpcode(opcode))
}

proof fn lemma_decode_ops_total(data: Seq<u8>, pos: int, k: nat, sid: u64, op_time: u64)
    ensures
        spec_decode_ops(data, pos, k, sid, op_time) matches Ok((_, total, _)) ==> op_time + total
            <= u64::MAX,
    decreases k,
{
    if k > 0 {
        match spec_decode_op(data, pos, sid, Timestamp { sid, time: op_time }) {
            Ok((c, op, span, p)) => {
                if op_time + span <= u64::MAX {
                    lemma_decode_ops_total(data, p, (k - 1) as nat, sid, (op_time + span) as u64);
                }
            },
            Err(_) => {},
        }
    }
}

/// Whether the decoded opcodes and operations agree with the described ones.
pub open spec fn ops_agree(codes: Seq<u8>, ops: Seq<DecodedOp>, described: Seq<(u8, OpView, u64)>) -> bool {
    &&& codes.len() == described.len()
    &&& ops.len() == described.len()
    &&& forall|i: int|
        0 <= i < described.len() ==> codes[i] == (#[trigger] described[i]).0 && ops[i].op_view()
            == described[i].1
}

/// The next operation of a patch that reads back, at `pos`: its bytes come
/// first, it carries the identifier of its place, and it decodes back (a
/// JSON constant once its CBOR reads back).
#[verifier::rlimit(40)]
proof fn lemma_cand_step(d0: Seq<u8>, s: u64, t: u64, ops: Seq<OpView>, i: int, pos: int, sid: u64, op_time: u64)
    requires
        patch_reads_back(s, t, ops),
        0 <= i < ops.len(),
        0 <= pos <= d0.len(),
        rest_at(d0, pos) == ops_bytes(sid, ops.skip(i)),
        ids_follow(sid, op_time as int, ops.skip(i)),
        op_time + total_span(ops.skip(i)) <= u64::MAX,
    ensures
        rest_at(d0, pos) == op_bytes(sid, ops[i]) + ops_bytes(sid, ops.skip(i + 1)),
        starts_with(rest_at(d0, pos), op_bytes(sid, ops[i])),
        op_reads_back(ops[i]),
        spec_op_id(ops[i]) == (Timestamp { sid, time: op_time }),
        ids_follow(sid, op_time + spec_op_span(ops[i]), ops.skip(i + 1)),
        op_time + spec_op_span(ops[i]) + total_span(ops.skip(i + 1)) <= u64::MAX,
        op_roundtrips(ops[i]) ==> spec_decode_op(d0, pos, sid, spec_op_id(ops[i])) == Ok::<(u8, OpView, u64, int), PatchError>(
            (crate::patch_builder::op_code(ops[i]), ops[i], spec_op_span(ops[i]), pos + op_bytes(sid, ops[i]).len()),
        ),
        !op_roundtrips(ops[i]) && ops[i] is NewCon ==> (ops[i] matches OpView::NewCon { value: ConView::Known(j), .. } && json_fit(j, 257)
            && pos < d0.len() && d0[pos] == 0 && starts_with(rest_at(d0, pos), seq![0u8] + json_cbor_bytes(j))),
{
    let rest = ops.skip(i);
    let op0 = ops[i];
    assert(rest[0] == op0);
    lemma_ops_bytes_cons(sid, rest);
    assert(rest.drop_first() =~= ops.skip(i + 1));
    let suf = ops_bytes(sid, ops.skip(i + 1));
    let pre = d0.take(pos);
    let ob = op_bytes(sid, op0);
    assert(d0 =~= pre + rest_at(d0, pos));
    assert(d0 =~= pre + ob + suf);
    assert(rest_at(d0, pos).subrange(0, ob.len() as int) =~= ob);
    assert(op_reads_back(op0));
    if op_roundtrips(op0) {
        lemma_op_roundtrip(sid, op0, pre, suf);
    } else if op0 is NewCon {
        let j = op0->NewCon_value->Known_0;
        assert(ob == seq![0u8] + json_cbor_bytes(j));
        assert(rest_at(d0, pos)[0] == ob[0]);
    }
}


fn decode_patch(reader: &mut Reader) -> (res: Result<
    (u64, u64, u64, u64, Vec<u8>, Vec<DecodedOp>),
    PatchError,
>)
    requires
        old(reader).wf(),
        old(reader).pos == 0,
    ensures
        final(reader).wf(),
        final(reader).data@ == old(reader).data@,
        match res {
            Ok((sid, time, n, span, codes, ops)) => match spec_decode_patch(old(reader).data@) {
                Ok((sid2, time2, n2, ops2, span2, end)) => sid == sid2 && time == time2 && n == n2
                    && span == span2 && end == final(reader).pos && ops_agree(codes@, ops@, ops2),
                Err(_) => false,
            },
            Err(e) => spec_decode_patch(old(reader).data@) == Err::<
                (u64, u64, u64, Seq<(u8, OpView, u64)>, u64, int),
                PatchError,
            >(e),
        },
        forall|s: u64, t: u64, ops: Seq<OpView>| #![trigger patch_bytes(s, t, ops)]
            patch_reads_back(s, t, ops) && old(reader).data@ == patch_bytes(s, t, ops) ==> (res matches Ok(
                (sid, time, n, span, codes, dops),
            ) && sid == s && time == t && ops_view(dops@) == ops && final(reader).pos == old(reader).data@.len()),
{
    let ghost d0 = reader.data@;
    let sid = match reader.vu57() {
        Ok(v) => v,
        Err(e) => {
            proof {
                assert forall|s: u64, t: u64, ops: Seq<OpView>| #![trigger patch_bytes(s, t, ops)]
                    patch_reads_back(s, t, ops) && d0 == patch_bytes(s, t, ops) implies false by {
                    lemma_patch_head(s, t, ops);
                }
            }
            return Err(e);
        },
    };
    let ghost p1 = reader.pos as int;
    let time = match reader.vu57() {
        Ok(v) => v,
        Err(e) => {
            proof {
                assert forall|s: u64, t: u64, ops: Seq<OpView>| #![trigger patch_bytes(s, t, ops)]
                    patch_reads_back(s, t, ops) && d0 == patch_bytes(s, t, ops) implies false by {
                    lemma_patch_head(s, t, ops);
                }
            }
            return Err(e);
        },
    };
    let ghost p2 = reader.pos as int;
    match reader.read_cbor() {
        Ok(_) => {},
        Err(e) => {
            proof {
                assert forall|s: u64, t: u64, ops: Seq<OpView>| #![trigger patch_bytes(s, t, ops)]
                    patch_reads_back(s, t, ops) && d0 == patch_bytes(s, t, ops) implies false by {
                    lemma_patch_head(s, t, ops);
                }
            }
            return Err(e);
        },
    }
    let ghost p3 = reader.pos as int;
    let ops_len = match reader.vu57() {
        Ok(v) => v,
        Err(e) => {
            proof {
                assert forall|s: u64, t: u64, ops: Seq<OpView>| #![trigger patch_bytes(s, t, ops)]
                    patch_reads_back(s, t, ops) && d0 == patch_bytes(s, t, ops) implies false by {
                    lemma_patch_head(s, t, ops);
                }
            }
            return Err(e);
        },
    };
    let ghost p0 = reader.pos as int;
    assert(spec_patch_header(d0) == Ok::<(u64, u64, u64, int), PatchError>((sid, time, ops_len, p0)));
    proof {
        assert forall|s: u64, t: u64, ops: Seq<OpView>| #![trigger patch_bytes(s, t, ops)]
            patch_reads_back(s, t, ops) && d0 == patch_bytes(s, t, ops) implies s == sid && t == time
            && ops.len() == ops_len && rest_at(d0, p0) == ops_bytes(sid, ops.skip(0))
            && ids_follow(sid, time as int, ops.skip(0)) && time + total_span(ops.skip(0)) <= u64::MAX by {
            lemma_patch_head(s, t, ops);
            assert(ops.skip(0) =~= ops);
            lemma_timeline_follow(s, t, ops);
        }
    }
    let mut span: u64 = 0;
    let mut opcodes: Vec<u8> = Vec::new();
    let mut decoded_ops: Vec<DecodedOp> = Vec::new();
    let mut op_time = time;
    let ghost mut prefix: Seq<(u8, OpView, u64)> = Seq::empty();
    let mut i: u64 = 0;
    proof {
        lemma_decode_ops_total(d0, p0, ops_len as nat, sid, time);
    }
    while i < ops_len
        invariant
            reader.wf(),
            reader.data@ == d0,
            d0 == old(reader).data@,
            i <= ops_len,
            op_time == time + span,
            spec_patch_header(d0) == Ok::<(u64, u64, u64, int), PatchError>((sid, time, ops_len, p0)),
            spec_decode_ops(d0, p0, ops_len as nat, sid, time) == match spec_decode_ops(
                d0,
                reader.pos as int,
                (ops_len - i) as nat,
                sid,
                op_time,
            ) {
                Ok((rest, total, end)) => Ok((prefix + rest, (span + total) as u64, end)),
                Err(e) => Err(e),
            },
            ops_agree(opcodes@, decoded_ops@, prefix),
            forall|s: u64, t: u64, ops: Seq<OpView>| #![trigger patch_bytes(s, t, ops)]
                patch_reads_back(s, t, ops) && d0 == patch_bytes(s, t, ops) ==> s == sid && t == time
                && ops.len() == ops_len && rest_at(d0, reader.pos as int) == ops_bytes(sid, ops.skip(i as int))
                && ops_view(decoded_ops@) == ops.take(i as int)
                && ids_follow(sid, op_time as int, ops.skip(i as int)) && op_time + total_span(ops.skip(i as int)) <= u64::MAX,
        decreases ops_len - i,
    {
        let op_id = Timestamp { sid, time: op_time };
        let ghost pos_before = reader.pos as int;
        let (opcode, decoded, op_span) = match decode_op(reader, sid, op_id) {
            Ok(v) => v,
            Err(e) => {
                proof {
                    assert forall|s: u64, t: u64, ops: Seq<OpView>| #![trigger patch_bytes(s, t, ops)]
                        patch_reads_back(s, t, ops) && d0 == patch_bytes(s, t, ops) implies false by {
                        lemma_cand_read(d0, s, t, ops, i as int, pos_before, sid, op_time);
                    }
                }
                return Err(e);
            },
        };
        proof {
            lemma_decode_ops_total(d0, pos_before, (ops_len - i) as nat, sid, op_time);
        }
        if op_time > u64::MAX - op_span {
            proof {
                assert forall|s: u64, t: u64, ops: Seq<OpView>| #![trigger patch_bytes(s, t, ops)]
                    patch_reads_back(s, t, ops) && d0 == patch_bytes(s, t, ops) implies false by {
                    lemma_cand_read(d0, s, t, ops, i as int, pos_before, sid, op_time);
                    lemma_cand_step(d0, s, t, ops, i as int, pos_before, sid, op_time);
                    lemma_total_span_nonneg(ops.skip(i + 1));
                }
            }
            return Err(PatchError::Overflow);
        }
        let ghost step = spec_decode_op(d0, pos_before, sid, op_id);
        let ghost described = step->Ok_0.1;
        let ghost dec_before = decoded_ops@;
        opcodes.push(opcode);
        decoded_ops.push(decoded);
        proof {
            let k = (ops_len - i) as nat;
            match spec_decode_ops(d0, reader.pos as int, (k - 1) as nat, sid, (op_time + op_span) as u64) {
                Ok((rest, total, end)) => {
                    lemma_decode_ops_total(d0, reader.pos as int, (k - 1) as nat, sid, (op_time + op_span) as u64);
                    assert(prefix + (seq![(opcode, described, op_span)] + rest) =~= prefix.push(
                        (opcode, described, op_span),
                    ) + rest);
                },
                Err(_) => {},
            }
            assert forall|j: int| 0 <= j < prefix.len() + 1 implies opcodes@[j] == (
            #[trigger] prefix.push((opcode, described, op_span))[j]).0 && decoded_ops@[j].op_view()
                == prefix.push((opcode, described, op_span))[j].1 by {
                if j < prefix.len() {
                    assert(prefix.push((opcode, described, op_span))[j] == prefix[j]);
                }
            }
            prefix = prefix.push((opcode, described, op_span));
            assert forall|s: u64, t: u64, ops: Seq<OpView>| #![trigger patch_bytes(s, t, ops)]
                patch_reads_back(s, t, ops) && d0 == patch_bytes(s, t, ops) implies s == sid && t == time
                && ops.len() == ops_len && rest_at(d0, reader.pos as int) == ops_bytes(sid, ops.skip(i + 1))
                && ops_view(decoded_ops@) == ops.take(i + 1)
                && ids_follow(sid, (op_time + op_span) as int, ops.skip(i + 1))
                && op_time + op_span + total_span(ops.skip(i + 1)) <= u64::MAX by {
                lemma_cand_read(d0, s, t, ops, i as int, pos_before, sid, op_time);
                lemma_cand_step(d0, s, t, ops, i as int, pos_before, sid, op_time);
                let op0 = ops[i as int];
                assert(decoded.op_view() == op0);
                assert(rest_at(d0, reader.pos as int) =~= rest_at(d0, pos_before).subrange(
                    op_bytes(sid, op0).len() as int, rest_at(d0, pos_before).len() as int));
                assert(ops_view(decoded_ops@) =~= ops_view(dec_before).push(op0));
                assert(ops.take(i + 1) =~= ops.take(i as int).push(op0));
            }
        }
        span = span + op_span;
        op_time = op_time + op_span;
        i = i + 1;
    }
    assert(prefix + Seq::<(u8, OpView, u64)>::empty() =~= prefix);
    proof {
        assert forall|s: u64, t: u64, ops: Seq<OpView>| #![trigger patch_bytes(s, t, ops)]
            patch_reads_back(s, t, ops) && d0 == patch_bytes(s, t, ops) implies ops_view(decoded_ops@) == ops
            && reader.pos == d0.len() by {
            assert(ops.take(ops_len as int) =~= ops);
            assert(ops.skip(ops_len as int) =~= Seq::<OpView>::empty());
            assert(ops_bytes(sid, Seq::<OpView>::empty()) =~= Seq::<u8>::empty());
        }
    }
    Ok((sid, time, ops_len, span, opcodes, decoded_ops))
}

/// A decoded patch: its bytes are kept for exact round trips, beside the
/// session, time, operation count, total span, opcodes and operations.
#[derive(Debug, PartialEq)]
pub struct Patch {
    bytes: Vec<u8>,
    op_count: u64,
    span: u64,
    sid: u64,
    time: u64,
    opcodes: Vec<u8>,
    decoded_ops: Vec<DecodedOp>,
}

impl Patch {
    /// The patch's bytes.
    pub closed spec fn spec_bytes(&self) -> Seq<u8> {
        self.bytes@
    }

    /// The number of operations.
    pub closed spec fn spec_op_count(&self) -> u64 {
        self.op_count
    }

    /// The total clock span of the operations.
    pub closed spec fn spec_span(&self) -> u64 {
        self.span
    }

    /// The session id of the first operation.
    pub closed spec fn spec_sid(&self) -> u64 {
        self.sid
    }

    /// The time of the first operation.
    pub closed spec fn spec_time(&self) -> u64 {
        self.time
    }

    /// The opcodes of the operations.
    pub closed spec fn spec_opcodes(&self) -> Seq<u8> {
        self.opcodes@
    }

    /// The operations.
    pub closed spec fn spec_ops(&self) -> Seq<DecodedOp> {
        self.decoded_ops@
    }

    /// The patch holds no decoded operation and zero header fields.
    pub open spec fn spec_is_blank(&self) -> bool {
        &&& self.spec_op_count() == 0
        &&& self.spec_span() == 0
        &&& self.spec_sid() == 0
        &&& self.spec_time() == 0
        &&& self.spec_opcodes().len() == 0
        &&& self.spec_ops().len() == 0
    }

    /// The patch holds what the bytes describe.
    pub open spec fn spec_describes(&self, data: Seq<u8>) -> bool {
        match spec_decode_patch(data) {
            Ok((sid, time, n, ops, span, end)) => {
                &&& end == data.len()
                &&& self.spec_sid() == sid
                &&& self.spec_time() == time
                &&& self.spec_op_count() == n
                &&& self.spec_span() == span
                &&& ops_agree(self.spec_opcodes(), self.spec_ops(), ops)
            },
            Err(_) => false,
        }
    }

    /// What decoding the bytes gives: a patch that keeps them, blank or holding
    /// what they describe, or the refusal of a CBOR failure on input starting
    /// with `{`; where no constant needs a CBOR item other than text or an
    /// integer converted, which of these is determined by the bytes.
    pub open spec fn from_binary_outcome(data: Seq<u8>, res: Result<Patch, PatchError>) -> bool {
        &&& match res {
            Ok(p) => p.spec_bytes() == data && (p.spec_is_blank() || p.spec_describes(data)),
            Err(e) => e == PatchError::InvalidCbor && data.len() > 0 && data[0] == 0x7b,
        }
        &&& match spec_decode_patch(data) {
            Ok((_, _, _, _, _, end)) => match res {
                Ok(p) => if end == data.len() {
                    p.spec_describes(data)
                } else {
                    p.spec_is_blank()
                },
                Err(_) => false,
            },
            Err(e) => if e == PatchError::InvalidCbor && data.len() > 0 && data[0] == 0x7b {
                res == Err::<Patch, PatchError>(e)
            } else {
                res matches Ok(p) && p.spec_is_blank()
            },
        }
    }

    fn blank(data: &[u8]) -> (res: Patch)
        ensures
            res.spec_bytes() == data@,
            res.spec_is_blank(),
    {
        Patch {
            bytes: vstd::slice::slice_to_vec(data),
            op_count: 0,
            span: 0,
            sid: 0,
            time: 0,
            opcodes: Vec::new(),
            decoded_ops: Vec::new(),
        }
    }

    /// Decodes a patch. Input whose operations do not decode, or that has
    /// bytes after them, gives a blank patch that keeps the bytes, except that
    /// a CBOR failure on input starting with `{` is refused. The bytes of
    /// operations that read back (`patch_reads_back`) decode into those
    /// operations.
    pub fn from_binary(data: &[u8]) -> (res: Result<Patch, PatchError>)
        ensures
            Patch::from_binary_outcome(data@, res),
            forall|s: u64, t: u64, ops: Seq<OpView>| #![trigger patch_bytes(s, t, ops)]
                patch_reads_back(s, t, ops) && data@ == patch_bytes(s, t, ops) ==> (res matches Ok(p) && p.spec_sid() == s
                    && p.spec_time() == t && ops_view(p.spec_ops()) == ops),
    {
        let mut reader = Reader::new(data);
        match decode_patch(&mut reader) {
            Err(err) => {
                if err == PatchError::InvalidCbor && data.len() > 0 && data[0] == 0x7b {
                    return Err(err);
                }
                Ok(Patch::blank(data))
            },
            Ok((sid, time, op_count, span, opcodes, decoded_ops)) => {
                if !reader.is_eof() {
                    return Ok(Patch::blank(data));
                }
                Ok(Patch {
                    bytes: vstd::slice::slice_to_vec(data),
                    op_count,
                    span,
                    sid,
                    time,
                    opcodes,
                    decoded_ops,
                })
            },
        }
    }

    /// Whether the patch holds what `other` holds: the same bytes, header
    /// fields, opcodes and operations.
    pub open spec fn same_as(&self, other: Patch) -> bool {
        &&& self.spec_bytes() == other.spec_bytes()
        &&& self.spec_op_count() == other.spec_op_count()
        &&& self.spec_span() == other.spec_span()
        &&& self.spec_sid() == other.spec_sid()
        &&& self.spec_time() == other.spec_time()
        &&& self.spec_opcodes() == other.spec_opcodes()
        &&& self.spec_ops().len() == other.spec_ops().len()
        &&& forall|i: int|
            0 <= i < self.spec_ops().len() ==> (#[trigger] self.spec_ops()[i]).op_view()
                == other.spec_ops()[i].op_view()
    }

    /// Law: the bytes fix the patch decoded from them: two outcomes of
    /// decoding the same bytes hold the same.
    pub proof fn lemma_bytes_fix_patch(data: Seq<u8>, p1: Patch, p2: Patch)
        requires
            Patch::from_binary_outcome(data, Ok(p1)),
            Patch::from_binary_outcome(data, Ok(p2)),
        ensures
            p1.same_as(p2),
    {
        match spec_decode_patch(data) {
            Ok((sid, time, n, ops, span, end)) => {
                if end == data.len() {
                    assert(p1.spec_opcodes() =~= p2.spec_opcodes()) by {
                        assert forall|i: int| 0 <= i < ops.len() implies p1.spec_opcodes()[i] == p2.spec_opcodes()[i] by {
                            assert(p1.spec_opcodes()[i] == ops[i].0);
                            assert(p2.spec_opcodes()[i] == ops[i].0);
                        }
                    }
                    assert forall|i: int| 0 <= i < p1.spec_ops().len() implies (#[trigger] p1.spec_ops()[i]).op_view()
                        == p2.spec_ops()[i].op_view() by {
                        assert(p1.spec_ops()[i].op_view() == ops[i].1);
                        assert(p2.spec_ops()[i].op_view() == ops[i].1);
                    }
                } else {
                    assert(p1.spec_opcodes() =~= p2.spec_opcodes());
                }
            },
            Err(e) => {
                assert(p1.spec_opcodes() =~= p2.spec_opcodes());
            },
        }
    }

    /// A copy of the patch.
    pub fn deep_clone(&self) -> (res: Patch)
        ensures
            res.same_as(*self),
    {
        let mut ops: Vec<DecodedOp> = Vec::new();
        let mut i: usize = 0;
        while i < self.decoded_ops.len()
            invariant
                i <= self.decoded_ops.len(),
                ops@.len() == i,
                forall|k: int| 0 <= k < i ==> (#[trigger] ops@[k]).op_view() == self.decoded_ops@[k].op_view(),
            decreases self.decoded_ops.len() - i,
        {
            ops.push(self.decoded_ops[i].deep_clone());
            i = i + 1;
        }
        Patch {
            bytes: copy_vec(&self.bytes),
            op_count: self.op_count,
            span: self.span,
            sid: self.sid,
            time: self.time,
            opcodes: copy_vec(&self.opcodes),
            decoded_ops: ops,
        }
    }

    /// The patch's bytes.
    pub fn to_binary(&self) -> (res: Vec<u8>)
        ensures
            res@ == self.spec_bytes(),
    {
        self.bytes.clone()
    }

    /// The number of operations.
    pub fn op_count(&self) -> (res: u64)
        ensures
            res == self.spec_op_count(),
    {
        self.op_count
    }

    /// The total clock span of the operations.
    pub fn span(&self) -> (res: u64)
        ensures
            res == self.spec_span(),
    {
        self.span
    }

    /// The session and time of the first operation, when there is one.
    pub fn id(&self) -> (res: Option<(u64, u64)>)
        ensures
            res == if self.spec_op_count() == 0 {
                None
            } else {
                Some((self.spec_sid(), self.spec_time()))
            },
    {
        if self.op_count == 0 {
            None
        } else {
            Some((self.sid, self.time))
        }
    }

    /// The time after the patch's last operation (0 for an empty patch).
    pub fn next_time(&self) -> (res: u64)
        ensures
            res == if self.spec_op_count() == 0 {
                0
            } else if self.spec_time() + self.spec_span() > u64::MAX {
                u64::MAX
            } else {
                (self.spec_time() + self.spec_span()) as u64
            },
    {
        if self.op_count == 0 {
            0
        } else {
            self.time.saturating_add(self.span)
        }
    }

    /// The opcodes of the operations.
    pub fn opcodes(&self) -> (res: &[u8])
        ensures
            res@ == self.spec_opcodes(),
    {
        self.opcodes.as_slice()
    }

    /// The operations.
    pub fn decoded_ops(&self) -> (res: &[DecodedOp])
        ensures
            res@ == self.spec_ops(),
    {
        self.decoded_ops.as_slice()
    }
}
} // verus!
