//! Building patches from operations: the canonical timeline check and the
//! binary encoder that the patch decoder reads back.

use vstd::prelude::*;
use crate::cbor::json_fit;
use crate::cbor_enc::{cbor_text_bytes, json_cbor_bytes, write_cbor_json, write_cbor_text};
use crate::crdt_binary::{
    b1vu56_bytes, vu57_bytes, write_b1vu56, write_vu57, lemma_vu57_roundtrip, lemma_b1vu56_roundtrip,
};
use crate::patch::{
    spec_op_id, spec_op_span, ConValue, ConView, DecodedOp, OpView, Patch, PatchError, Timespan,
    Timestamp, spec_decode_id, spec_decode_op, spec_decode_ops, spec_ids, spec_spans, spec_vec_entries,
    spec_u8_at, spec_len_at, spec_vu57_at,
};
use vstd::utf8::encode_utf8;

verus! {

/// Failures of the building of a patch from operations.
#[derive(Debug, Clone, PartialEq, Eq)]
pub enum PatchBuildError {
    NonCanonicalId {
        index: usize,
        expected_sid: u64,
        expected_time: u64,
        actual_sid: u64,
        actual_time: u64,
    },
    VecIndexOutOfRange,
    EncodedPatchDecode(PatchError),
}

// ---------------------------------------------------------------------------
// The timeline
// ---------------------------------------------------------------------------

/// The contents of a run of operations.
pub open spec fn ops_view(ops: Seq<DecodedOp>) -> Seq<OpView> {
    ops.map_values(|o: DecodedOp| o.op_view())
}

/// `a + b`, or `u64::MAX` when that overflows.
pub open spec fn sat_add(a: u64, b: u64) -> u64 {
    if a + b > u64::MAX {
        u64::MAX
    } else {
        (a + b) as u64
    }
}

/// The time the operation at index `i` must carry: `time` advanced by the
/// spans of the operations before it (saturating).
pub open spec fn canon_time(time: u64, ops: Seq<OpView>, i: int) -> u64
    decreases i,
{
    if i <= 0 {
        time
    } else {
        sat_add(canon_time(time, ops, i - 1), spec_op_span(ops[i - 1]))
    }
}

/// The operation at index `i` does not carry the identifier its place asks.
pub open spec fn off_timeline(sid: u64, time: u64, ops: Seq<OpView>, i: int) -> bool {
    spec_op_id(ops[i]) != Timestamp { sid, time: canon_time(time, ops, i) }
}

/// The error for the first operation off the timeline, when there is one.
pub open spec fn timeline_error(sid: u64, time: u64, ops: Seq<OpView>, i: int) -> PatchBuildError {
    PatchBuildError::NonCanonicalId {
        index: i as usize,
        expected_sid: sid,
        expected_time: canon_time(time, ops, i),
        actual_sid: spec_op_id(ops[i]).sid,
        actual_time: spec_op_id(ops[i]).time,
    }
}

/// Whether every operation carries the identifier its place asks.
pub open spec fn on_timeline(sid: u64, time: u64, ops: Seq<OpView>) -> bool {
    forall|i: int| 0 <= i < ops.len() ==> !#[trigger] off_timeline(sid, time, ops, i)
}

/// `i` is the first operation off the timeline.
pub open spec fn first_off_timeline(sid: u64, time: u64, ops: Seq<OpView>, i: int) -> bool {
    &&& 0 <= i < ops.len()
    &&& off_timeline(sid, time, ops, i)
    &&& forall|j: int| 0 <= j < i ==> !#[trigger] off_timeline(sid, time, ops, j)
}

// ---------------------------------------------------------------------------
// The bytes of a patch
// ---------------------------------------------------------------------------

/// An identifier in a patch of session `patch_sid`: the time alone when the
/// session is the patch's, else the time flagged and the session id.
pub open spec fn id_bytes(patch_sid: u64, ts: Timestamp) -> Seq<u8> {
    if ts.sid == patch_sid {
        b1vu56_bytes(0, ts.time)
    } else {
        b1vu56_bytes(1, ts.time) + vu57_bytes(ts.sid)
    }
}

/// The first octet of an operation and its length: the length inline when it
/// is at most 7, else zero there and a `vu57` after.
pub open spec fn op_head_bytes(opcode: u8, len: u64) -> Seq<u8> {
    if len <= 7 {
        seq![(opcode * 8 + len) as u8]
    } else {
        seq![(opcode * 8) as u8] + vu57_bytes(len)
    }
}

/// Object entries: a CBOR text key and an identifier each.
pub open spec fn obj_entries_bytes(patch_sid: u64, data: Seq<(Seq<char>, Timestamp)>) -> Seq<u8>
    decreases data.len(),
{
    if data.len() == 0 {
        Seq::empty()
    } else {
        obj_entries_bytes(patch_sid, data.drop_last()) + cbor_text_bytes(data.last().0) + id_bytes(
            patch_sid,
            data.last().1,
        )
    }
}

/// Vector entries: a one-byte index and an identifier each.
pub open spec fn vec_entries_bytes(patch_sid: u64, data: Seq<(u64, Timestamp)>) -> Seq<u8>
    decreases data.len(),
{
    if data.len() == 0 {
        Seq::empty()
    } else {
        vec_entries_bytes(patch_sid, data.drop_last()) + seq![data.last().0 as u8] + id_bytes(
            patch_sid,
            data.last().1,
        )
    }
}

/// Identifiers, one after the other.
pub open spec fn ids_bytes(patch_sid: u64, data: Seq<Timestamp>) -> Seq<u8>
    decreases data.len(),
{
    if data.len() == 0 {
        Seq::empty()
    } else {
        ids_bytes(patch_sid, data.drop_last()) + id_bytes(patch_sid, data.last())
    }
}

/// Deleted spans: a start identifier and a `vu57` length each.
pub open spec fn spans_bytes(patch_sid: u64, what: Seq<Timespan>) -> Seq<u8>
    decreases what.len(),
{
    if what.len() == 0 {
        Seq::empty()
    } else {
        spans_bytes(patch_sid, what.drop_last()) + id_bytes(
            patch_sid,
            Timestamp { sid: what.last().sid, time: what.last().time },
        ) + vu57_bytes(what.last().span)
    }
}

/// Whether every vector index of the operation fits in a byte.
pub open spec fn vec_indices_fit(op: OpView) -> bool {
    match op {
        OpView::InsVec { data, .. } => forall|k: int| 0 <= k < data.len() ==> #[trigger] data[k].0 <= 255,
        _ => true,
    }
}

/// The bytes of one operation in a patch of session `patch_sid`.
pub open spec fn op_bytes(patch_sid: u64, op: OpView) -> Seq<u8> {
    match op {
        OpView::NewCon { value, .. } => match value {
            ConView::Known(j) => seq![0u8] + json_cbor_bytes(j),
            ConView::Ref(ts) => op_head_bytes(0, 1) + id_bytes(patch_sid, ts),
            ConView::Undef => seq![0u8, 0xf7u8],
        },
        OpView::NewVal { .. } => seq![8u8],
        OpView::NewObj { .. } => seq![16u8],
        OpView::NewVec { .. } => seq![24u8],
        OpView::NewStr { .. } => seq![32u8],
        OpView::NewBin { .. } => seq![40u8],
        OpView::NewArr { .. } => seq![48u8],
        OpView::InsVal { obj, val, .. } => seq![72u8] + id_bytes(patch_sid, obj) + id_bytes(
            patch_sid,
            val,
        ),
        OpView::InsObj { obj, data, .. } => op_head_bytes(10, data.len() as u64) + id_bytes(
            patch_sid,
            obj,
        ) + obj_entries_bytes(patch_sid, data),
        OpView::InsVec { obj, data, .. } => op_head_bytes(11, data.len() as u64) + id_bytes(
            patch_sid,
            obj,
        ) + vec_entries_bytes(patch_sid, data),
        OpView::InsStr { obj, reference, data, .. } => op_head_bytes(
            12,
            encode_utf8(data).len() as u64,
        ) + id_bytes(patch_sid, obj) + id_bytes(patch_sid, reference) + encode_utf8(data),
        OpView::InsBin { obj, reference, data, .. } => op_head_bytes(13, data.len() as u64)
            + id_bytes(patch_sid, obj) + id_bytes(patch_sid, reference) + data,
        OpView::InsArr { obj, reference, data, .. } => op_head_bytes(14, data.len() as u64)
            + id_bytes(patch_sid, obj) + id_bytes(patch_sid, reference) + ids_bytes(
            patch_sid,
            data,
        ),
        OpView::UpdArr { obj, reference, val, .. } => seq![120u8] + id_bytes(patch_sid, obj)
            + id_bytes(patch_sid, reference) + id_bytes(patch_sid, val),
        OpView::Del { obj, what, .. } => op_head_bytes(16, what.len() as u64) + id_bytes(
            patch_sid,
            obj,
        ) + spans_bytes(patch_sid, what),
        OpView::Nop { len, .. } => op_head_bytes(17, len),
    }
}

/// The bytes of the operations, one after the other.
pub open spec fn ops_bytes(patch_sid: u64, ops: Seq<OpView>) -> Seq<u8>
    decreases ops.len(),
{
    if ops.len() == 0 {
        Seq::empty()
    } else {
        ops_bytes(patch_sid, ops.drop_last()) + op_bytes(patch_sid, ops.last())
    }
}

/// A whole patch: session id and time (`vu57`), CBOR `undefined` as
/// metadata, the operation count (`vu57`) and the operations.
pub open spec fn patch_bytes(sid: u64, time: u64, ops: Seq<OpView>) -> Seq<u8> {
    vu57_bytes(sid) + vu57_bytes(time) + seq![0xf7u8] + vu57_bytes(ops.len() as u64) + ops_bytes(
        sid,
        ops,
    )
}

/// What encoding the operations gives: the first operation off the timeline
/// refused, else a vector index above 255 refused, else the patch's bytes.
pub open spec fn spec_encode_patch(sid: u64, time: u64, ops: Seq<OpView>) -> Result<
    Seq<u8>,
    PatchBuildError,
> {
    if !on_timeline(sid, time, ops) {
        let i = choose|i: int| first_off_timeline(sid, time, ops, i);
        Err(timeline_error(sid, time, ops, i))
    } else if exists|k: int| 0 <= k < ops.len() && !#[trigger] vec_indices_fit(ops[k]) {
        Err(PatchBuildError::VecIndexOutOfRange)
    } else {
        Ok(patch_bytes(sid, time, ops))
    }
}

/// The first operation off the timeline is unique.
proof fn lemma_first_off_unique(sid: u64, time: u64, ops: Seq<OpView>, i: int, j: int)
    requires
        first_off_timeline(sid, time, ops, i),
        first_off_timeline(sid, time, ops, j),
    ensures
        i == j,
{
    if i < j {
        assert(!off_timeline(sid, time, ops, i));
    } else if j < i {
        assert(!off_timeline(sid, time, ops, j));
    }
}


// ---------------------------------------------------------------------------
// Decoding what the encoder writes
// ---------------------------------------------------------------------------

/// An identifier that the wire format holds exactly: a time below 2^56 and
/// a session id below 2^57.
pub open spec fn id_fits(ts: Timestamp) -> bool {
    ts.time >> 56u64 == 0 && ts.sid >> 57u64 == 0
}

/// An identifier written in a patch of session `sid` reads back.
pub proof fn lemma_id_roundtrip(sid: u64, ts: Timestamp, pre: Seq<u8>, suf: Seq<u8>)
    requires
        id_fits(ts),
    ensures
        spec_decode_id(pre + id_bytes(sid, ts) + suf, pre.len() as int, sid) == Ok::<(Timestamp, int), PatchError>(
            (ts, (pre.len() + id_bytes(sid, ts).len()) as int),
        ),
{
    if ts.sid == sid {
        lemma_b1vu56_roundtrip(0, ts.time, pre, suf);
        assert(0u8 & 1u8 == 0u8) by (bit_vector);
    } else {
        let b = b1vu56_bytes(1, ts.time);
        let v = vu57_bytes(ts.sid);
        assert(pre + id_bytes(sid, ts) + suf =~= pre + b + (v + suf));
        lemma_b1vu56_roundtrip(1, ts.time, pre, v + suf);
        assert(1u8 & 1u8 == 1u8) by (bit_vector);
        assert(pre + b + (v + suf) =~= (pre + b) + v + suf);
        lemma_vu57_roundtrip(ts.sid, pre + b, suf);
    }
}

/// Identifiers written one after the other, from the first.
proof fn lemma_ids_bytes_cons(sid: u64, data: Seq<Timestamp>)
    requires
        data.len() > 0,
    ensures
        ids_bytes(sid, data) == id_bytes(sid, data[0]) + ids_bytes(sid, data.drop_first()),
    decreases data.len(),
{
    if data.len() == 1 {
        reveal_with_fuel(ids_bytes, 2);
        assert(data.last() == data[0]);
        assert(data.drop_first() =~= Seq::<Timestamp>::empty());
        assert(data.drop_last() =~= Seq::<Timestamp>::empty());
        assert(ids_bytes(sid, data) =~= id_bytes(sid, data[0]));
    } else {
        lemma_ids_bytes_cons(sid, data.drop_last());
        assert(data.drop_last().drop_first() =~= data.drop_first().drop_last());
        assert(data.drop_first().last() == data.last());
        assert(ids_bytes(sid, data) =~= id_bytes(sid, data[0]) + ids_bytes(sid, data.drop_first()));
    }
}

/// Identifiers read back.
proof fn lemma_ids_roundtrip(sid: u64, data: Seq<Timestamp>, pre: Seq<u8>, suf: Seq<u8>)
    requires
        forall|k: int| 0 <= k < data.len() ==> id_fits(#[trigger] data[k]),
    ensures
        spec_ids(pre + ids_bytes(sid, data) + suf, pre.len() as int, data.len(), sid) == Ok::<
            (Seq<Timestamp>, int),
            PatchError,
        >((data, (pre.len() + ids_bytes(sid, data).len()) as int)),
    decreases data.len(),
{
    if data.len() == 0 {
        assert(data =~= Seq::<Timestamp>::empty());
    } else {
        lemma_ids_bytes_cons(sid, data);
        let first = id_bytes(sid, data[0]);
        let rest = data.drop_first();
        assert(pre + ids_bytes(sid, data) + suf =~= pre + first + (ids_bytes(sid, rest) + suf));
        lemma_id_roundtrip(sid, data[0], pre, ids_bytes(sid, rest) + suf);
        assert(pre + first + (ids_bytes(sid, rest) + suf) =~= (pre + first) + ids_bytes(sid, rest) + suf);
        assert forall|k: int| 0 <= k < rest.len() implies id_fits(#[trigger] rest[k]) by {
            assert(rest[k] == data[k + 1]);
        }
        lemma_ids_roundtrip(sid, rest, pre + first, suf);
        assert(seq![data[0]] + rest =~= data);
    }
}

/// Deleted spans written one after the other, from the first.
proof fn lemma_spans_bytes_cons(sid: u64, what: Seq<Timespan>)
    requires
        what.len() > 0,
    ensures
        spans_bytes(sid, what) == id_bytes(sid, Timestamp { sid: what[0].sid, time: what[0].time })
            + vu57_bytes(what[0].span) + spans_bytes(sid, what.drop_first()),
    decreases what.len(),
{
    if what.len() == 1 {
        reveal_with_fuel(spans_bytes, 2);
        assert(what.last() == what[0]);
        assert(what.drop_first() =~= Seq::<Timespan>::empty());
        assert(what.drop_last() =~= Seq::<Timespan>::empty());
        assert(spans_bytes(sid, what) =~= id_bytes(sid, Timestamp { sid: what[0].sid, time: what[0].time })
            + vu57_bytes(what[0].span) + spans_bytes(sid, what.drop_first()));
    } else {
        lemma_spans_bytes_cons(sid, what.drop_last());
        assert(what.drop_last().drop_first() =~= what.drop_first().drop_last());
        assert(what.drop_first().last() == what.last());
        assert(spans_bytes(sid, what) =~= id_bytes(sid, Timestamp { sid: what[0].sid, time: what[0].time })
            + vu57_bytes(what[0].span) + spans_bytes(sid, what.drop_first()));
    }
}

/// A span that the wire format holds exactly.
pub open spec fn span_fits(t: Timespan) -> bool {
    id_fits(Timestamp { sid: t.sid, time: t.time }) && t.span >> 57u64 == 0
}

/// Deleted spans read back.
#[verifier::rlimit(50)]
proof fn lemma_spans_roundtrip(sid: u64, what: Seq<Timespan>, pre: Seq<u8>, suf: Seq<u8>)
    requires
        forall|k: int| 0 <= k < what.len() ==> span_fits(#[trigger] what[k]),
    ensures
        spec_spans(pre + spans_bytes(sid, what) + suf, pre.len() as int, what.len(), sid) == Ok::<
            (Seq<Timespan>, int),
            PatchError,
        >((what, (pre.len() + spans_bytes(sid, what).len()) as int)),
    decreases what.len(),
{
    if what.len() == 0 {
        assert(what =~= Seq::<Timespan>::empty());
    } else {
        lemma_spans_bytes_cons(sid, what);
        let t0 = what[0];
        let idb = id_bytes(sid, Timestamp { sid: t0.sid, time: t0.time });
        let lb = vu57_bytes(t0.span);
        let rest = what.drop_first();
        let rb = spans_bytes(sid, rest);
        assert(span_fits(t0));
        assert(pre + spans_bytes(sid, what) + suf =~= pre + idb + (lb + rb + suf));
        lemma_id_roundtrip(sid, Timestamp { sid: t0.sid, time: t0.time }, pre, lb + rb + suf);
        assert(pre + idb + (lb + rb + suf) =~= (pre + idb) + lb + (rb + suf));
        lemma_vu57_roundtrip(t0.span, pre + idb, rb + suf);
        assert((pre + idb) + lb + (rb + suf) =~= (pre + idb + lb) + rb + suf);
        assert forall|k: int| 0 <= k < rest.len() implies span_fits(#[trigger] rest[k]) by {
            assert(rest[k] == what[k + 1]);
        }
        lemma_spans_roundtrip(sid, rest, pre + idb + lb, suf);
        assert(seq![Timespan { sid: t0.sid, time: t0.time, span: t0.span }] + rest =~= what);
    }
}

/// Vector entries written one after the other, from the first.
/// Object entries written one after the other, from the first.
pub(crate) proof fn lemma_obj_entries_bytes_cons(sid: u64, data: Seq<(Seq<char>, Timestamp)>)
    requires
        data.len() > 0,
    ensures
        obj_entries_bytes(sid, data) == cbor_text_bytes(data[0].0) + id_bytes(sid, data[0].1) + obj_entries_bytes(
            sid,
            data.drop_first(),
        ),
    decreases data.len(),
{
    if data.len() == 1 {
        reveal_with_fuel(obj_entries_bytes, 2);
        assert(data.last() == data[0]);
        assert(data.drop_first() =~= Seq::<(Seq<char>, Timestamp)>::empty());
        assert(data.drop_last() =~= Seq::<(Seq<char>, Timestamp)>::empty());
        assert(obj_entries_bytes(sid, data) =~= cbor_text_bytes(data[0].0) + id_bytes(sid, data[0].1)
            + obj_entries_bytes(sid, data.drop_first()));
    } else {
        lemma_obj_entries_bytes_cons(sid, data.drop_last());
        assert(data.drop_last().drop_first() =~= data.drop_first().drop_last());
        assert(data.drop_first().last() == data.last());
        assert(obj_entries_bytes(sid, data) =~= cbor_text_bytes(data[0].0) + id_bytes(sid, data[0].1)
            + obj_entries_bytes(sid, data.drop_first()));
    }
}

proof fn lemma_vec_entries_bytes_cons(sid: u64, data: Seq<(u64, Timestamp)>)
    requires
        data.len() > 0,
    ensures
        vec_entries_bytes(sid, data) == seq![data[0].0 as u8] + id_bytes(sid, data[0].1) + vec_entries_bytes(
            sid,
            data.drop_first(),
        ),
    decreases data.len(),
{
    if data.len() == 1 {
        reveal_with_fuel(vec_entries_bytes, 2);
        assert(data.last() == data[0]);
        assert(data.drop_first() =~= Seq::<(u64, Timestamp)>::empty());
        assert(data.drop_last() =~= Seq::<(u64, Timestamp)>::empty());
        assert(vec_entries_bytes(sid, data) =~= seq![data[0].0 as u8] + id_bytes(sid, data[0].1)
            + vec_entries_bytes(sid, data.drop_first()));
    } else {
        lemma_vec_entries_bytes_cons(sid, data.drop_last());
        assert(data.drop_last().drop_first() =~= data.drop_first().drop_last());
        assert(data.drop_first().last() == data.last());
        assert(vec_entries_bytes(sid, data) =~= seq![data[0].0 as u8] + id_bytes(sid, data[0].1)
            + vec_entries_bytes(sid, data.drop_first()));
    }
}

/// Vector entries read back.
proof fn lemma_vec_entries_roundtrip(sid: u64, data: Seq<(u64, Timestamp)>, pre: Seq<u8>, suf: Seq<u8>)
    requires
        forall|k: int| 0 <= k < data.len() ==> (#[trigger] data[k]).0 <= 255 && id_fits(data[k].1),
    ensures
        spec_vec_entries(pre + vec_entries_bytes(sid, data) + suf, pre.len() as int, data.len(), sid) == Ok::<
            (Seq<(u64, Timestamp)>, int),
            PatchError,
        >((data, (pre.len() + vec_entries_bytes(sid, data).len()) as int)),
    decreases data.len(),
{
    if data.len() == 0 {
        assert(data =~= Seq::<(u64, Timestamp)>::empty());
    } else {
        lemma_vec_entries_bytes_cons(sid, data);
        let e = data[0];
        let b = seq![e.0 as u8];
        let idb = id_bytes(sid, e.1);
        let rest = data.drop_first();
        let rb = vec_entries_bytes(sid, rest);
        let all = pre + vec_entries_bytes(sid, data) + suf;
        assert(all =~= (pre + b) + idb + (rb + suf));
        assert(all[pre.len() as int] == e.0 as u8);
        lemma_id_roundtrip(sid, e.1, pre + b, rb + suf);
        assert((pre + b) + idb + (rb + suf) =~= (pre + b + idb) + rb + suf);
        assert forall|k: int| 0 <= k < rest.len() implies (#[trigger] rest[k]).0 <= 255 && id_fits(rest[k].1) by {
            assert(rest[k] == data[k + 1]);
        }
        lemma_vec_entries_roundtrip(sid, rest, pre + b + idb, suf);
        assert(((e.0 as u8) as u64) == e.0);
        assert(seq![(e.0, e.1)] + rest =~= data);
    }
}

/// The first octet of an operation and its nonzero length read back.
proof fn lemma_head_roundtrip(opcode: u8, len: u64, pre: Seq<u8>, rest: Seq<u8>)
    requires
        opcode < 32,
        1 <= len,
        len < 0x200_0000_0000_0000,
    ensures
        ({
            let data = pre + op_head_bytes(opcode, len) + rest;
            let p = pre.len() as int;
            &&& spec_u8_at(data, p) == Ok::<(u8, int), PatchError>((data[p], p + 1))
            &&& (data[p] >> 3u8) as u8 == opcode
            &&& spec_len_at(data, p + 1, data[p]) == Ok::<(u64, int), PatchError>(
                (len, p + op_head_bytes(opcode, len).len()),
            )
            &&& data[p] & 7u8 != 0 <==> len <= 7
        }),
{
    let data = pre + op_head_bytes(opcode, len) + rest;
    let p = pre.len() as int;
    if len <= 7 {
        let o = (opcode * 8 + len) as u8;
        let l = len as u8;
        assert(data[p] == o);
        assert(o >> 3u8 == opcode && o & 7u8 == l && l != 0) by (bit_vector)
            requires
                opcode < 32,
                1 <= len <= 7,
                l == len as u8,
                o == (opcode * 8 + len) as u8,
        ;
    } else {
        let o = (opcode * 8) as u8;
        assert(data[p] == o);
        assert(o >> 3u8 == opcode && o & 7u8 == 0) by (bit_vector)
            requires
                opcode < 32,
                o == (opcode * 8) as u8,
        ;
        assert(data =~= (pre + seq![o]) + vu57_bytes(len) + rest);
        assert(len >> 57u64 == 0) by (bit_vector)
            requires
                len < 0x200_0000_0000_0000,
        ;
        lemma_vu57_roundtrip(len, pre + seq![o], rest);
    }
}


/// A lone octet of an operation without length reads back as its opcode.
proof fn lemma_octet(opcode: u8)
    requires
        opcode < 32,
    ensures
        ((opcode * 8) as u8 >> 3u8) as u8 == opcode,
        (opcode * 8) as u8 & 7u8 == 0,
{
    let o = (opcode * 8) as u8;
    assert(o >> 3u8 == opcode && o & 7u8 == 0) by (bit_vector)
        requires
            opcode < 32,
            o == (opcode * 8) as u8,
    ;
}

/// The opcode of an operation.
pub open spec fn op_code(op: OpView) -> u8 {
    match op {
        OpView::NewCon { .. } => 0,
        OpView::NewVal { .. } => 1,
        OpView::NewObj { .. } => 2,
        OpView::NewVec { .. } => 3,
        OpView::NewStr { .. } => 4,
        OpView::NewBin { .. } => 5,
        OpView::NewArr { .. } => 6,
        OpView::InsVal { .. } => 9,
        OpView::InsObj { .. } => 10,
        OpView::InsVec { .. } => 11,
        OpView::InsStr { .. } => 12,
        OpView::InsBin { .. } => 13,
        OpView::InsArr { .. } => 14,
        OpView::UpdArr { .. } => 15,
        OpView::Del { .. } => 16,
        OpView::Nop { .. } => 17,
    }
}

/// A length the wire format holds and the decoder reads as one: nonzero
/// and below 2^57.
pub open spec fn len_fits(n: int) -> bool {
    1 <= n < 0x200_0000_0000_0000
}

/// An operation that reads back as written: a constant only by reference
/// (a JSON constant and the keys of an object insertion are CBOR items,
/// whose reading is `ciborium`'s), every length nonzero and below 2^57
/// (a zero length is written inline as zero, which the reader takes as
/// "length follows"), identifiers and spans that fit, vector indices below
/// 256, and byte runs whose length fits in `usize`.
pub open spec fn op_roundtrips(op: OpView) -> bool {
    match op {
        OpView::NewCon { value, .. } => value matches ConView::Ref(t) && id_fits(t),
        OpView::NewVal { .. } => true,
        OpView::NewObj { .. } => true,
        OpView::NewVec { .. } => true,
        OpView::NewStr { .. } => true,
        OpView::NewBin { .. } => true,
        OpView::NewArr { .. } => true,
        OpView::InsVal { obj, val, .. } => id_fits(obj) && id_fits(val),
        OpView::InsObj { .. } => false,
        OpView::InsVec { obj, data, .. } => id_fits(obj) && len_fits(data.len() as int) && forall|k: int|
            0 <= k < data.len() ==> (#[trigger] data[k]).0 <= 255 && id_fits(data[k].1),
        OpView::InsStr { obj, reference, data, .. } => id_fits(obj) && id_fits(reference) && len_fits(
            encode_utf8(data).len() as int,
        ) && encode_utf8(data).len() <= usize::MAX,
        OpView::InsBin { obj, reference, data, .. } => id_fits(obj) && id_fits(reference) && len_fits(
            data.len() as int,
        ) && data.len() <= usize::MAX,
        OpView::InsArr { obj, reference, data, .. } => id_fits(obj) && id_fits(reference) && len_fits(
            data.len() as int,
        ) && forall|k: int| 0 <= k < data.len() ==> id_fits(#[trigger] data[k]),
        OpView::UpdArr { obj, reference, val, .. } => id_fits(obj) && id_fits(reference) && id_fits(val),
        OpView::Del { obj, what, .. } => id_fits(obj) && len_fits(what.len() as int) && forall|k: int|
            0 <= k < what.len() ==> span_fits(#[trigger] what[k]),
        OpView::Nop { len, .. } => len_fits(len as int),
    }
}

/// The result of reading one operation back.
pub open spec fn op_read_back(sid: u64, op: OpView, p: int) -> Result<(u8, OpView, u64, int), PatchError> {
    Ok((op_code(op), op, spec_op_span(op), p + op_bytes(sid, op).len()))
}

proof fn lemma_two_ids_roundtrip(sid: u64, a: Timestamp, b: Timestamp, pre: Seq<u8>, suf: Seq<u8>)
    requires
        id_fits(a),
        id_fits(b),
    ensures
        spec_decode_id(pre + id_bytes(sid, a) + id_bytes(sid, b) + suf, pre.len() as int, sid) == Ok::<
            (Timestamp, int),
            PatchError,
        >((a, (pre.len() + id_bytes(sid, a).len()) as int)),
        spec_decode_id(pre + id_bytes(sid, a) + id_bytes(sid, b) + suf, (pre.len() + id_bytes(sid, a).len()) as int, sid)
            == Ok::<(Timestamp, int), PatchError>((b, (pre.len() + id_bytes(sid, a).len() + id_bytes(sid, b).len()) as int)),
{
    let ia = id_bytes(sid, a);
    let ib = id_bytes(sid, b);
    assert(pre + ia + ib + suf =~= pre + ia + (ib + suf));
    lemma_id_roundtrip(sid, a, pre, ib + suf);
    assert(pre + ia + ib + suf =~= (pre + ia) + ib + suf);
    lemma_id_roundtrip(sid, b, pre + ia, suf);
}

/// The head, the container and the reference of an insertion read back.
proof fn lemma_ins_head(
    sid: u64,
    opcode: u8,
    len: u64,
    obj: Timestamp,
    reference: Timestamp,
    body: Seq<u8>,
    pre: Seq<u8>,
    suf: Seq<u8>,
)
    requires
        opcode < 32,
        1 <= len < 0x200_0000_0000_0000,
        id_fits(obj),
        id_fits(reference),
    ensures
        ({
            let head = op_head_bytes(opcode, len);
            let ia = id_bytes(sid, obj);
            let ib = id_bytes(sid, reference);
            let data = pre + (head + ia + ib + body) + suf;
            let p = pre.len() as int;
            let p1 = p + head.len();
            let p2 = p1 + ia.len();
            let p3 = p2 + ib.len();
            &&& spec_u8_at(data, p) == Ok::<(u8, int), PatchError>((data[p], p + 1))
            &&& (data[p] >> 3u8) as u8 == opcode
            &&& spec_len_at(data, p + 1, data[p]) == Ok::<(u64, int), PatchError>((len, p1))
            &&& spec_decode_id(data, p1, sid) == Ok::<(Timestamp, int), PatchError>((obj, p2))
            &&& spec_decode_id(data, p2, sid) == Ok::<(Timestamp, int), PatchError>((reference, p3))
            &&& data == (pre + head + ia + ib) + body + suf
            &&& p3 == (pre + head + ia + ib).len()
        }),
{
    let head = op_head_bytes(opcode, len);
    let ia = id_bytes(sid, obj);
    let ib = id_bytes(sid, reference);
    let data = pre + (head + ia + ib + body) + suf;
    assert(data =~= pre + head + (ia + ib + body + suf));
    lemma_head_roundtrip(opcode, len, pre, ia + ib + body + suf);
    assert(data =~= (pre + head) + ia + ib + (body + suf));
    lemma_two_ids_roundtrip(sid, obj, reference, pre + head, body + suf);
    assert(data =~= (pre + head + ia + ib) + body + suf);
}

/// An insertion of text reads back.
proof fn lemma_ins_str_roundtrip(sid: u64, op: OpView, pre: Seq<u8>, suf: Seq<u8>)
    requires
        op_roundtrips(op),
        op is InsStr,
    ensures
        spec_decode_op(pre + op_bytes(sid, op) + suf, pre.len() as int, sid, spec_op_id(op)) == op_read_back(
            sid,
            op,
            pre.len() as int,
        ),
{
    if let OpView::InsStr { obj, reference, data: text, .. } = op {
        let body = encode_utf8(text);
        let len = body.len() as u64;
        lemma_ins_head(sid, 12, len, obj, reference, body, pre, suf);
        let data = pre + op_bytes(sid, op) + suf;
        let q = pre + op_head_bytes(12, len) + id_bytes(sid, obj) + id_bytes(sid, reference);
        assert(data == q + body + suf);
        assert(data.subrange(q.len() as int, (q.len() + body.len()) as int) =~= body);
        vstd::utf8::encode_utf8_valid_utf8(text);
        vstd::utf8::encode_utf8_decode_utf8(text);
    }
}

/// An insertion of bytes reads back.
proof fn lemma_ins_bin_roundtrip(sid: u64, op: OpView, pre: Seq<u8>, suf: Seq<u8>)
    requires
        op_roundtrips(op),
        op is InsBin,
    ensures
        spec_decode_op(pre + op_bytes(sid, op) + suf, pre.len() as int, sid, spec_op_id(op)) == op_read_back(
            sid,
            op,
            pre.len() as int,
        ),
{
    if let OpView::InsBin { obj, reference, data: body, .. } = op {
        let len = body.len() as u64;
        lemma_ins_head(sid, 13, len, obj, reference, body, pre, suf);
        let data = pre + op_bytes(sid, op) + suf;
        let q = pre + op_head_bytes(13, len) + id_bytes(sid, obj) + id_bytes(sid, reference);
        assert(data == q + body + suf);
        assert(data.subrange(q.len() as int, (q.len() + body.len()) as int) =~= body);
    }
}

/// An insertion of identifiers reads back.
proof fn lemma_ins_arr_roundtrip(sid: u64, op: OpView, pre: Seq<u8>, suf: Seq<u8>)
    requires
        op_roundtrips(op),
        op is InsArr,
    ensures
        spec_decode_op(pre + op_bytes(sid, op) + suf, pre.len() as int, sid, spec_op_id(op)) == op_read_back(
            sid,
            op,
            pre.len() as int,
        ),
{
    if let OpView::InsArr { obj, reference, data: ids, .. } = op {
        let body = ids_bytes(sid, ids);
        let len = ids.len() as u64;
        lemma_ins_head(sid, 14, len, obj, reference, body, pre, suf);
        let q = pre + op_head_bytes(14, len) + id_bytes(sid, obj) + id_bytes(sid, reference);
        lemma_ids_roundtrip(sid, ids, q, suf);
    }
}

/// The head and the container of an operation on a list read back.
pub(crate) proof fn lemma_list_head(sid: u64, opcode: u8, len: u64, obj: Timestamp, body: Seq<u8>, pre: Seq<u8>, suf: Seq<u8>)
    requires
        opcode < 32,
        1 <= len < 0x200_0000_0000_0000,
        id_fits(obj),
    ensures
        ({
            let head = op_head_bytes(opcode, len);
            let ia = id_bytes(sid, obj);
            let data = pre + (head + ia + body) + suf;
            let p = pre.len() as int;
            let p1 = p + head.len();
            let p2 = p1 + ia.len();
            &&& spec_u8_at(data, p) == Ok::<(u8, int), PatchError>((data[p], p + 1))
            &&& (data[p] >> 3u8) as u8 == opcode
            &&& spec_len_at(data, p + 1, data[p]) == Ok::<(u64, int), PatchError>((len, p1))
            &&& spec_decode_id(data, p1, sid) == Ok::<(Timestamp, int), PatchError>((obj, p2))
            &&& data == (pre + head + ia) + body + suf
            &&& p2 == (pre + head + ia).len()
            &&& (data[p] & 7u8 != 0 <==> len <= 7)
        }),
{
    let head = op_head_bytes(opcode, len);
    let ia = id_bytes(sid, obj);
    let data = pre + (head + ia + body) + suf;
    assert(data =~= pre + head + (ia + body + suf));
    lemma_head_roundtrip(opcode, len, pre, ia + body + suf);
    assert(data =~= (pre + head) + ia + (body + suf));
    lemma_id_roundtrip(sid, obj, pre + head, body + suf);
    assert(data =~= (pre + head + ia) + body + suf);
}

#[verifier::rlimit(50)]
proof fn lemma_ins_vec_roundtrip(sid: u64, op: OpView, pre: Seq<u8>, suf: Seq<u8>)
    requires
        op_roundtrips(op),
        op is InsVec,
    ensures
        spec_decode_op(pre + op_bytes(sid, op) + suf, pre.len() as int, sid, spec_op_id(op)) == op_read_back(
            sid,
            op,
            pre.len() as int,
        ),
{
    let data = pre + op_bytes(sid, op) + suf;
    let p = pre.len() as int;
    if let OpView::InsVec { obj, data: es, .. } = op {
        lemma_list_head(sid, 11, es.len() as u64, obj, vec_entries_bytes(sid, es), pre, suf);
        let q = pre + op_head_bytes(11, es.len() as u64) + id_bytes(sid, obj);
        lemma_vec_entries_roundtrip(sid, es, q, suf);
    }
}

#[verifier::rlimit(50)]
proof fn lemma_del_roundtrip(sid: u64, op: OpView, pre: Seq<u8>, suf: Seq<u8>)
    requires
        op_roundtrips(op),
        op is Del,
    ensures
        spec_decode_op(pre + op_bytes(sid, op) + suf, pre.len() as int, sid, spec_op_id(op)) == op_read_back(
            sid,
            op,
            pre.len() as int,
        ),
{
    let data = pre + op_bytes(sid, op) + suf;
    let p = pre.len() as int;
    if let OpView::Del { obj, what, .. } = op {
        lemma_list_head(sid, 16, what.len() as u64, obj, spans_bytes(sid, what), pre, suf);
        let q = pre + op_head_bytes(16, what.len() as u64) + id_bytes(sid, obj);
        lemma_spans_roundtrip(sid, what, q, suf);
    }
}

#[verifier::rlimit(50)]
proof fn lemma_nop_roundtrip(sid: u64, op: OpView, pre: Seq<u8>, suf: Seq<u8>)
    requires
        op_roundtrips(op),
        op is Nop,
    ensures
        spec_decode_op(pre + op_bytes(sid, op) + suf, pre.len() as int, sid, spec_op_id(op)) == op_read_back(
            sid,
            op,
            pre.len() as int,
        ),
{
    let data = pre + op_bytes(sid, op) + suf;
    let p = pre.len() as int;
    if let OpView::Nop { len, .. } = op {
        assert(data == pre + op_head_bytes(17, len) + suf);
        lemma_head_roundtrip(17, len, pre, suf);
    }
}

#[verifier::rlimit(50)]
proof fn lemma_con_ref_roundtrip(sid: u64, op: OpView, pre: Seq<u8>, suf: Seq<u8>)
    requires
        op_roundtrips(op),
        op is NewCon,
    ensures
        spec_decode_op(pre + op_bytes(sid, op) + suf, pre.len() as int, sid, spec_op_id(op)) == op_read_back(
            sid,
            op,
            pre.len() as int,
        ),
{
    let data = pre + op_bytes(sid, op) + suf;
    let p = pre.len() as int;
    if let OpView::NewCon { value: ConView::Ref(t), .. } = op {
        lemma_list_head(sid, 0, 1, t, Seq::empty(), pre, suf);
        assert(data == pre + (op_head_bytes(0, 1) + id_bytes(sid, t) + Seq::<u8>::empty()) + suf);
    }
}

#[verifier::rlimit(50)]
proof fn lemma_ins_val_roundtrip(sid: u64, op: OpView, pre: Seq<u8>, suf: Seq<u8>)
    requires
        op_roundtrips(op),
        op is InsVal,
    ensures
        spec_decode_op(pre + op_bytes(sid, op) + suf, pre.len() as int, sid, spec_op_id(op)) == op_read_back(
            sid,
            op,
            pre.len() as int,
        ),
{
    let data = pre + op_bytes(sid, op) + suf;
    let p = pre.len() as int;
    if let OpView::InsVal { obj, val, .. } = op {
        let o = 72u8;
        assert(o >> 3u8 == 9u8) by (bit_vector)
            requires
                o == 72u8,
        ;
        assert(data =~= pre + seq![o] + id_bytes(sid, obj) + id_bytes(sid, val) + suf);
        lemma_two_ids_roundtrip(sid, obj, val, pre + seq![o], suf);
    }
}

#[verifier::rlimit(50)]
proof fn lemma_upd_arr_roundtrip(sid: u64, op: OpView, pre: Seq<u8>, suf: Seq<u8>)
    requires
        op_roundtrips(op),
        op is UpdArr,
    ensures
        spec_decode_op(pre + op_bytes(sid, op) + suf, pre.len() as int, sid, spec_op_id(op)) == op_read_back(
            sid,
            op,
            pre.len() as int,
        ),
{
    let data = pre + op_bytes(sid, op) + suf;
    let p = pre.len() as int;
    if let OpView::UpdArr { obj, reference, val, .. } = op {
        let o = 120u8;
        assert(o >> 3u8 == 15u8) by (bit_vector)
            requires
                o == 120u8,
        ;
        let ia = id_bytes(sid, obj);
        let ib = id_bytes(sid, reference);
        let ic = id_bytes(sid, val);
        assert(data =~= pre + seq![o] + ia + ib + (ic + suf));
        lemma_two_ids_roundtrip(sid, obj, reference, pre + seq![o], ic + suf);
        assert(data =~= (pre + seq![o] + ia + ib) + ic + suf);
        lemma_id_roundtrip(sid, val, pre + seq![o] + ia + ib, suf);
    }
}

#[verifier::rlimit(50)]
proof fn lemma_new_node_roundtrip(sid: u64, op: OpView, pre: Seq<u8>, suf: Seq<u8>)
    requires
        op_roundtrips(op),
        op is NewVal || op is NewObj || op is NewVec || op is NewStr || op is NewBin || op is NewArr,
    ensures
        spec_decode_op(pre + op_bytes(sid, op) + suf, pre.len() as int, sid, spec_op_id(op)) == op_read_back(
            sid,
            op,
            pre.len() as int,
        ),
{
    let data = pre + op_bytes(sid, op) + suf;
    let p = pre.len() as int;
    let c = op_code(op);
    lemma_octet(c);
    assert(op_bytes(sid, op) == seq![(c * 8) as u8]);
    assert(data[p] == (c * 8) as u8);
}

/// Every operation that `op_roundtrips` admits reads back, whatever stands
/// before and after its bytes.
pub proof fn lemma_op_roundtrip(sid: u64, op: OpView, pre: Seq<u8>, suf: Seq<u8>)
    requires
        op_roundtrips(op),
    ensures
        spec_decode_op(pre + op_bytes(sid, op) + suf, pre.len() as int, sid, spec_op_id(op)) == op_read_back(
            sid,
            op,
            pre.len() as int,
        ),
{
    match op {
        OpView::InsStr { .. } => lemma_ins_str_roundtrip(sid, op, pre, suf),
        OpView::InsBin { .. } => lemma_ins_bin_roundtrip(sid, op, pre, suf),
        OpView::InsArr { .. } => lemma_ins_arr_roundtrip(sid, op, pre, suf),
        OpView::InsVec { .. } => lemma_ins_vec_roundtrip(sid, op, pre, suf),
        OpView::Del { .. } => lemma_del_roundtrip(sid, op, pre, suf),
        OpView::Nop { .. } => lemma_nop_roundtrip(sid, op, pre, suf),
        OpView::NewCon { .. } => lemma_con_ref_roundtrip(sid, op, pre, suf),
        OpView::InsVal { .. } => lemma_ins_val_roundtrip(sid, op, pre, suf),
        OpView::UpdArr { .. } => lemma_upd_arr_roundtrip(sid, op, pre, suf),
        OpView::InsObj { .. } => {},
        _ => lemma_new_node_roundtrip(sid, op, pre, suf),
    }
}

/// The clock span of operations, all together.
pub open spec fn total_span(ops: Seq<OpView>) -> int
    decreases ops.len(),
{
    if ops.len() == 0 {
        0
    } else {
        spec_op_span(ops[0]) + total_span(ops.drop_first())
    }
}

/// Each operation carries the identifier of its place on the timeline from
/// `(sid, t)`.
pub open spec fn ids_follow(sid: u64, t: int, ops: Seq<OpView>) -> bool
    decreases ops.len(),
{
    ops.len() == 0 || (0 <= t <= u64::MAX && spec_op_id(ops[0]) == Timestamp { sid, time: t as u64 }
        && ids_follow(sid, t + spec_op_span(ops[0]), ops.drop_first()))
}

/// What reading operations back gives: opcode, content and clock span of each.
pub open spec fn read_back_ops(ops: Seq<OpView>) -> Seq<(u8, OpView, u64)> {
    ops.map_values(|op: OpView| (op_code(op), op, spec_op_span(op)))
}

pub(crate) proof fn lemma_total_span_nonneg(ops: Seq<OpView>)
    ensures
        total_span(ops) >= 0,
    decreases ops.len(),
{
    if ops.len() > 0 {
        lemma_total_span_nonneg(ops.drop_first());
    }
}

/// Operations written one after the other, from the first.
pub(crate) proof fn lemma_ops_bytes_cons(sid: u64, ops: Seq<OpView>)
    requires
        ops.len() > 0,
    ensures
        ops_bytes(sid, ops) == op_bytes(sid, ops[0]) + ops_bytes(sid, ops.drop_first()),
    decreases ops.len(),
{
    if ops.len() == 1 {
        reveal_with_fuel(ops_bytes, 2);
        assert(ops.last() == ops[0]);
        assert(ops.drop_first() =~= Seq::<OpView>::empty());
        assert(ops.drop_last() =~= Seq::<OpView>::empty());
        assert(ops_bytes(sid, ops) =~= op_bytes(sid, ops[0]));
    } else {
        lemma_ops_bytes_cons(sid, ops.drop_last());
        assert(ops.drop_last().drop_first() =~= ops.drop_first().drop_last());
        assert(ops.drop_first().last() == ops.last());
        assert(ops_bytes(sid, ops) =~= op_bytes(sid, ops[0]) + ops_bytes(sid, ops.drop_first()));
    }
}

/// Operations read back, whatever stands before and after their bytes.
#[verifier::rlimit(80)]
pub proof fn lemma_ops_roundtrip(sid: u64, t: u64, ops: Seq<OpView>, pre: Seq<u8>, suf: Seq<u8>)
    requires
        forall|k: int| 0 <= k < ops.len() ==> op_roundtrips(#[trigger] ops[k]),
        ids_follow(sid, t as int, ops),
        t + total_span(ops) <= u64::MAX,
    ensures
        spec_decode_ops(pre + ops_bytes(sid, ops) + suf, pre.len() as int, ops.len(), sid, t) == Ok::<
            (Seq<(u8, OpView, u64)>, u64, int),
            PatchError,
        >((read_back_ops(ops), total_span(ops) as u64, (pre.len() + ops_bytes(sid, ops).len()) as int)),
    decreases ops.len(),
{
    if ops.len() == 0 {
        assert(read_back_ops(ops) =~= Seq::<(u8, OpView, u64)>::empty());
    } else {
        let op0 = ops[0];
        let rest = ops.drop_first();
        let b0 = op_bytes(sid, op0);
        let rb = ops_bytes(sid, rest);
        lemma_ops_bytes_cons(sid, ops);
        lemma_total_span_nonneg(rest);
        assert(op_roundtrips(ops[0]));
        assert(pre + ops_bytes(sid, ops) + suf =~= pre + b0 + (rb + suf));
        lemma_op_roundtrip(sid, op0, pre, rb + suf);
        assert(pre + b0 + (rb + suf) =~= (pre + b0) + rb + suf);
        assert forall|k: int| 0 <= k < rest.len() implies op_roundtrips(#[trigger] rest[k]) by {
            assert(rest[k] == ops[k + 1]);
        }
        let t2 = (t + spec_op_span(op0)) as u64;
        lemma_ops_roundtrip(sid, t2, rest, pre + b0, suf);
        assert(read_back_ops(ops) =~= seq![(op_code(op0), op0, spec_op_span(op0))] + read_back_ops(rest));
    }
}

/// With no time past `u64::MAX`, the next time of the timeline from `t` at
/// place `i + 1` is that of the timeline after the first operation at `i`.
proof fn lemma_canon_shift(t: u64, ops: Seq<OpView>, i: int)
    requires
        0 <= i < ops.len(),
        t + spec_op_span(ops[0]) <= u64::MAX,
    ensures
        canon_time(t, ops, i + 1) == canon_time((t + spec_op_span(ops[0])) as u64, ops.drop_first(), i),
    decreases i,
{
    reveal_with_fuel(canon_time, 2);
    if i > 0 {
        lemma_canon_shift(t, ops, i - 1);
        assert(ops[i] == ops.drop_first()[i - 1]);
    }
}

/// Operations on the timeline, with no time past `u64::MAX`, follow it
/// from the first.
pub(crate) proof fn lemma_timeline_follow(sid: u64, t: u64, ops: Seq<OpView>)
    requires
        on_timeline(sid, t, ops),
        t + total_span(ops) <= u64::MAX,
    ensures
        ids_follow(sid, t as int, ops),
    decreases ops.len(),
{
    if ops.len() > 0 {
        let rest = ops.drop_first();
        let t2 = (t + spec_op_span(ops[0])) as u64;
        lemma_total_span_nonneg(rest);
        assert(!off_timeline(sid, t, ops, 0));
        assert forall|i: int| 0 <= i < rest.len() implies !#[trigger] off_timeline(sid, t2, rest, i) by {
            lemma_canon_shift(t, ops, i);
            assert(!off_timeline(sid, t, ops, i + 1));
            assert(rest[i] == ops[i + 1]);
        }
        lemma_timeline_follow(sid, t2, rest);
    }
}

/// The operations that the encoder accepts, when each is one that reads
/// back (see `op_roundtrips`) and no time passes `u64::MAX`, are encoded in
/// a patch whose header carries the session id, the time, the CBOR
/// `undefined` metadata and the operation count, and whose bytes after the
/// metadata decode into exactly those operations, up to the end.
pub proof fn lemma_patch_roundtrip(sid: u64, time: u64, ops: Seq<OpView>)
    requires
        sid >> 57u64 == 0,
        time >> 57u64 == 0,
        ops.len() < 0x200_0000_0000_0000,
        forall|k: int| 0 <= k < ops.len() ==> op_roundtrips(#[trigger] ops[k]),
        on_timeline(sid, time, ops),
        time + total_span(ops) <= u64::MAX,
    ensures
        ({
            let bytes = patch_bytes(sid, time, ops);
            let p1 = vu57_bytes(sid).len() as int;
            let p2 = p1 + vu57_bytes(time).len();
            let p4 = p2 + 1 + vu57_bytes(ops.len() as u64).len();
            &&& spec_encode_patch(sid, time, ops) == Ok::<Seq<u8>, PatchBuildError>(bytes)
            &&& spec_vu57_at(bytes, 0) == Ok::<(u64, int), PatchError>((sid, p1))
            &&& spec_vu57_at(bytes, p1) == Ok::<(u64, int), PatchError>((time, p2))
            &&& bytes[p2] == 0xf7
            &&& spec_vu57_at(bytes, p2 + 1) == Ok::<(u64, int), PatchError>((ops.len() as u64, p4))
            &&& spec_decode_ops(bytes, p4, ops.len(), sid, time) == Ok::<(Seq<(u8, OpView, u64)>, u64, int), PatchError>(
                (read_back_ops(ops), total_span(ops) as u64, bytes.len() as int),
            )
        }),
{
    let n = ops.len() as u64;
    let vs = vu57_bytes(sid);
    let vt = vu57_bytes(time);
    let vn = vu57_bytes(n);
    let ob = ops_bytes(sid, ops);
    let bytes = patch_bytes(sid, time, ops);
    assert(forall|k: int| 0 <= k < ops.len() ==> #[trigger] vec_indices_fit(ops[k])) by {
        assert forall|k: int| 0 <= k < ops.len() implies #[trigger] vec_indices_fit(ops[k]) by {
            assert(op_roundtrips(ops[k]));
        }
    }
    assert(!exists|k: int| 0 <= k < ops.len() && !#[trigger] vec_indices_fit(ops[k]));
    assert((n as int) == ops.len());
    assert(n >> 57u64 == 0) by (bit_vector)
        requires
            n < 0x200_0000_0000_0000,
    ;
    assert(bytes =~= Seq::<u8>::empty() + vs + (vt + seq![0xf7u8] + vn + ob));
    lemma_vu57_roundtrip(sid, Seq::empty(), vt + seq![0xf7u8] + vn + ob);
    assert(bytes =~= vs + vt + (seq![0xf7u8] + vn + ob));
    lemma_vu57_roundtrip(time, vs, seq![0xf7u8] + vn + ob);
    assert(bytes =~= (vs + vt + seq![0xf7u8]) + vn + ob);
    lemma_vu57_roundtrip(n, vs + vt + seq![0xf7u8], ob);
    assert(bytes =~= (vs + vt + seq![0xf7u8] + vn) + ob + Seq::<u8>::empty());
    lemma_timeline_follow(sid, time, ops);
    lemma_ops_roundtrip(sid, time, ops, vs + vt + seq![0xf7u8] + vn, Seq::empty());
}

/// An operation whose bytes read back into it: one of `op_roundtrips`, a
/// JSON constant whose CBOR reads back (`json_fit`), or an object insertion
/// with entries, whose keys' CBOR reads back and whose identifiers fit.
pub open spec fn op_reads_back(op: OpView) -> bool {
    ||| op_roundtrips(op)
    ||| op matches OpView::NewCon { value: ConView::Known(j), .. } && json_fit(j, 257)
    ||| op matches OpView::InsObj { obj, data, .. } && id_fits(obj) && len_fits(data.len() as int) && obj_entries_fit(data)
}

/// Object entries whose keys' CBOR reads back (at most `u32::MAX` UTF-8
/// bytes) and whose identifiers fit.
pub open spec fn obj_entries_fit(data: Seq<(Seq<char>, Timestamp)>) -> bool {
    forall|k: int| 0 <= k < data.len() ==> encode_utf8((#[trigger] data[k]).0).len() <= u32::MAX && id_fits(data[k].1)
}

/// Whether the patch of these operations, from `(sid, time)`, reads back:
/// session id and time below 2^57, each operation one that reads back, the
/// operations on their timeline and no time past `u64::MAX`.
pub open spec fn patch_reads_back(sid: u64, time: u64, ops: Seq<OpView>) -> bool {
    &&& sid >> 57u64 == 0
    &&& time >> 57u64 == 0
    &&& ops.len() < 0x200_0000_0000_0000
    &&& forall|k: int| 0 <= k < ops.len() ==> op_reads_back(#[trigger] ops[k])
    &&& on_timeline(sid, time, ops)
    &&& time + total_span(ops) <= u64::MAX
}

/// Operations that read back are encoded into the bytes of their patch.
pub proof fn lemma_reads_back_encodes(sid: u64, time: u64, ops: Seq<OpView>)
    requires
        patch_reads_back(sid, time, ops),
    ensures
        spec_encode_patch(sid, time, ops) == Ok::<Seq<u8>, PatchBuildError>(patch_bytes(sid, time, ops)),
{
    assert forall|k: int| 0 <= k < ops.len() implies #[trigger] vec_indices_fit(ops[k]) by {
        assert(op_reads_back(ops[k]));
    }
}

/// The header of a patch's bytes reads back, and the operations' bytes
/// follow it to the end.
pub proof fn lemma_patch_head(sid: u64, time: u64, ops: Seq<OpView>)
    requires
        sid >> 57u64 == 0,
        time >> 57u64 == 0,
        ops.len() < 0x200_0000_0000_0000,
    ensures
        ({
            let bytes = patch_bytes(sid, time, ops);
            let p1 = vu57_bytes(sid).len() as int;
            let p2 = p1 + vu57_bytes(time).len();
            let p4 = p2 + 1 + vu57_bytes(ops.len() as u64).len();
            &&& spec_vu57_at(bytes, 0) == Ok::<(u64, int), PatchError>((sid, p1))
            &&& spec_vu57_at(bytes, p1) == Ok::<(u64, int), PatchError>((time, p2))
            &&& p2 < bytes.len() && bytes[p2] == 0xf7
            &&& spec_vu57_at(bytes, p2 + 1) == Ok::<(u64, int), PatchError>((ops.len() as u64, p4))
            &&& bytes.subrange(p4, bytes.len() as int) == ops_bytes(sid, ops)
        }),
{
    let n = ops.len() as u64;
    let vs = vu57_bytes(sid);
    let vt = vu57_bytes(time);
    let vn = vu57_bytes(n);
    let ob = ops_bytes(sid, ops);
    let bytes = patch_bytes(sid, time, ops);
    assert((n as int) == ops.len());
    assert(n >> 57u64 == 0) by (bit_vector)
        requires
            n < 0x200_0000_0000_0000,
    ;
    assert(bytes =~= Seq::<u8>::empty() + vs + (vt + seq![0xf7u8] + vn + ob));
    lemma_vu57_roundtrip(sid, Seq::empty(), vt + seq![0xf7u8] + vn + ob);
    assert(bytes =~= vs + vt + (seq![0xf7u8] + vn + ob));
    lemma_vu57_roundtrip(time, vs, seq![0xf7u8] + vn + ob);
    assert(bytes =~= (vs + vt + seq![0xf7u8]) + vn + ob);
    lemma_vu57_roundtrip(n, vs + vt + seq![0xf7u8], ob);
    assert(bytes[(vs.len() + vt.len()) as int] == 0xf7);
    assert(bytes.subrange((vs.len() + vt.len() + 1 + vn.len()) as int, bytes.len() as int) =~= ob);
}

// ---------------------------------------------------------------------------
// The encoder
// ---------------------------------------------------------------------------

/// Checks that each operation carries the identifier of its place on the
/// timeline that starts at `(sid, time)`.
fn validate_canonical_ids(sid: u64, time: u64, ops: &[DecodedOp]) -> (res: Result<(), PatchBuildError>)
    ensures
        match res {
            Ok(()) => on_timeline(sid, time, ops_view(ops@)),
            Err(e) => exists|i: int|
                first_off_timeline(sid, time, ops_view(ops@), i) && e == timeline_error(
                    sid,
                    time,
                    ops_view(ops@),
                    i,
                ),
        },
{
    let ghost v = ops_view(ops@);
    let mut op_time = time;
    let mut index: usize = 0;
    while index < ops.len()
        invariant
            index <= ops@.len(),
            v == ops_view(ops@),
            v.len() == ops@.len(),
            op_time == canon_time(time, v, index as int),
            forall|j: int| 0 <= j < index ==> !#[trigger] off_timeline(sid, time, v, j),
        decreases ops.len() - index,
    {
        let op = &ops[index];
        let id = op.id();
        assert(v[index as int] == op.op_view());
        if id.sid != sid || id.time != op_time {
            assert(off_timeline(sid, time, v, index as int));
            assert(first_off_timeline(sid, time, v, index as int));
            return Err(
                PatchBuildError::NonCanonicalId {
                    index,
                    expected_sid: sid,
                    expected_time: op_time,
                    actual_sid: id.sid,
                    actual_time: id.time,
                },
            );
        }
        op_time = op_time.saturating_add(op.span());
        index = index + 1;
    }
    Ok(())
}

/// Appends bytes one by one.
fn push_all(out: &mut Vec<u8>, bytes: &[u8])
    ensures
        final(out)@ == old(out)@ + bytes@,
{
    let mut i: usize = 0;
    while i < bytes.len()
        invariant
            i <= bytes@.len(),
            out@ =~= old(out)@ + bytes@.take(i as int),
        decreases bytes.len() - i,
    {
        out.push(bytes[i]);
        i = i + 1;
    }
    assert(bytes@.take(bytes@.len() as int) =~= bytes@);
}

struct Writer {
    bytes: Vec<u8>,
    patch_sid: u64,
}

impl Writer {
    fn encode_id(&mut self, ts: Timestamp)
        ensures
            final(self).patch_sid == old(self).patch_sid,
            final(self).bytes@ == old(self).bytes@ + id_bytes(old(self).patch_sid, ts),
    {
        if ts.sid == self.patch_sid {
            write_b1vu56(&mut self.bytes, 0, ts.time);
        } else {
            write_b1vu56(&mut self.bytes, 1, ts.time);
            write_vu57(&mut self.bytes, ts.sid);
            assert(self.bytes@ =~= old(self).bytes@ + id_bytes(old(self).patch_sid, ts));
        }
    }

    fn write_op_len(&mut self, opcode: u8, len: u64)
        requires
            opcode < 32,
        ensures
            final(self).patch_sid == old(self).patch_sid,
            final(self).bytes@ == old(self).bytes@ + op_head_bytes(opcode, len),
    {
        let head: u8 = opcode << 3;
        assert(head == opcode * 8) by (bit_vector)
            requires
                opcode < 32,
                head == opcode << 3,
        ;
        if len <= 7 {
            let b: u8 = head | (len as u8);
            assert(b == head + len) by (bit_vector)
                requires
                    head == opcode * 8,
                    opcode < 32,
                    len <= 7,
                    b == head | (len as u8),
            ;
            self.bytes.push(b);
        } else {
            self.bytes.push(head);
            write_vu57(&mut self.bytes, len);
            assert(self.bytes@ =~= old(self).bytes@ + op_head_bytes(opcode, len));
        }
    }

    fn encode_obj_entries(&mut self, data: &Vec<(String, Timestamp)>)
        ensures
            final(self).patch_sid == old(self).patch_sid,
            final(self).bytes@ == old(self).bytes@ + obj_entries_bytes(
                old(self).patch_sid,
                data@.map_values(|e: (String, Timestamp)| (e.0@, e.1)),
            ),
    {
        let ghost dv = data@.map_values(|e: (String, Timestamp)| (e.0@, e.1));
        let ghost start = self.bytes@;
        let mut i: usize = 0;
        assert(dv.take(0) =~= Seq::<(Seq<char>, Timestamp)>::empty());
        while i < data.len()
            invariant
                i <= data@.len(),
                dv == data@.map_values(|e: (String, Timestamp)| (e.0@, e.1)),
                self.patch_sid == old(self).patch_sid,
                self.bytes@ == start + obj_entries_bytes(self.patch_sid, dv.take(i as int)),
            decreases data.len() - i,
        {
            assert(dv.take(i + 1).drop_last() =~= dv.take(i as int));
            write_cbor_text(&mut self.bytes, data[i].0.as_str());
            self.encode_id(data[i].1);
            assert(self.bytes@ =~= start + obj_entries_bytes(self.patch_sid, dv.take(i + 1)));
            i = i + 1;
        }
        assert(dv.take(data@.len() as int) =~= dv);
    }

    fn encode_vec_entries(&mut self, data: &Vec<(u64, Timestamp)>) -> (res: Result<(), PatchBuildError>)
        ensures
            final(self).patch_sid == old(self).patch_sid,
            match res {
                Ok(()) => (forall|k: int| 0 <= k < data@.len() ==> #[trigger] data@[k].0 <= 255)
                    && final(self).bytes@ == old(self).bytes@ + vec_entries_bytes(
                    old(self).patch_sid,
                    data@,
                ),
                Err(e) => e == PatchBuildError::VecIndexOutOfRange && exists|k: int|
                    0 <= k < data@.len() && #[trigger] data@[k].0 > 255,
            },
    {
        let ghost start = self.bytes@;
        let mut i: usize = 0;
        assert(data@.take(0) =~= Seq::<(u64, Timestamp)>::empty());
        while i < data.len()
            invariant
                i <= data@.len(),
                self.patch_sid == old(self).patch_sid,
                self.bytes@ == start + vec_entries_bytes(self.patch_sid, data@.take(i as int)),
                forall|k: int| 0 <= k < i ==> #[trigger] data@[k].0 <= 255,
            decreases data.len() - i,
        {
            let (idx, id) = data[i];
            if idx > 255 {
                assert(data@[i as int].0 > 255);
                return Err(PatchBuildError::VecIndexOutOfRange);
            }
            assert(data@.take(i + 1).drop_last() =~= data@.take(i as int));
            self.bytes.push(idx as u8);
            self.encode_id(id);
            assert(self.bytes@ =~= start + vec_entries_bytes(self.patch_sid, data@.take(i + 1)));
            i = i + 1;
        }
        assert(data@.take(data@.len() as int) =~= data@);
        Ok(())
    }

    fn encode_ids(&mut self, data: &Vec<Timestamp>)
        ensures
            final(self).patch_sid == old(self).patch_sid,
            final(self).bytes@ == old(self).bytes@ + ids_bytes(old(self).patch_sid, data@),
    {
        let ghost start = self.bytes@;
        let mut i: usize = 0;
        assert(data@.take(0) =~= Seq::<Timestamp>::empty());
        while i < data.len()
            invariant
                i <= data@.len(),
                self.patch_sid == old(self).patch_sid,
                self.bytes@ == start + ids_bytes(self.patch_sid, data@.take(i as int)),
            decreases data.len() - i,
        {
            assert(data@.take(i + 1).drop_last() =~= data@.take(i as int));
            self.encode_id(data[i]);
            assert(self.bytes@ =~= start + ids_bytes(self.patch_sid, data@.take(i + 1)));
            i = i + 1;
        }
        assert(data@.take(data@.len() as int) =~= data@);
    }

    fn encode_spans(&mut self, what: &Vec<Timespan>)
        ensures
            final(self).patch_sid == old(self).patch_sid,
            final(self).bytes@ == old(self).bytes@ + spans_bytes(old(self).patch_sid, what@),
    {
        let ghost start = self.bytes@;
        let mut i: usize = 0;
        assert(what@.take(0) =~= Seq::<Timespan>::empty());
        while i < what.len()
            invariant
                i <= what@.len(),
                self.patch_sid == old(self).patch_sid,
                self.bytes@ == start + spans_bytes(self.patch_sid, what@.take(i as int)),
            decreases what.len() - i,
        {
            assert(what@.take(i + 1).drop_last() =~= what@.take(i as int));
            let span = what[i];
            self.encode_id(Timestamp { sid: span.sid, time: span.time });
            write_vu57(&mut self.bytes, span.span);
            assert(self.bytes@ =~= start + spans_bytes(self.patch_sid, what@.take(i + 1)));
            i = i + 1;
        }
        assert(what@.take(what@.len() as int) =~= what@);
    }

    #[verifier::rlimit(40)]
    fn encode_op(&mut self, op: &DecodedOp) -> (res: Result<(), PatchBuildError>)
        ensures
            final(self).patch_sid == old(self).patch_sid,
            match res {
                Ok(()) => vec_indices_fit(op.op_view()) && final(self).bytes@ == old(self).bytes@
                    + op_bytes(old(self).patch_sid, op.op_view()),
                Err(e) => e == PatchBuildError::VecIndexOutOfRange && !vec_indices_fit(op.op_view()),
            },
    {
        let ghost start = self.bytes@;
        let ghost sid = self.patch_sid;
        match op {
            DecodedOp::NewCon { value, .. } => match value {
                ConValue::Json(json) => {
                    self.bytes.push(0);
                    write_cbor_json(&mut self.bytes, json);
                    assert(self.bytes@ =~= start + op_bytes(sid, op.op_view()));
                },
                ConValue::Ref(ts) => {
                    self.write_op_len(0, 1);
                    self.encode_id(*ts);
                    assert(self.bytes@ =~= start + op_bytes(sid, op.op_view()));
                },
                ConValue::Undef => {
                    self.bytes.push(0);
                    self.bytes.push(0xf7);
                    assert(self.bytes@ =~= start + op_bytes(sid, op.op_view()));
                },
            },
            DecodedOp::NewVal { .. } => self.bytes.push(8),
            DecodedOp::NewObj { .. } => self.bytes.push(16),
            DecodedOp::NewVec { .. } => self.bytes.push(24),
            DecodedOp::NewStr { .. } => self.bytes.push(32),
            DecodedOp::NewBin { .. } => self.bytes.push(40),
            DecodedOp::NewArr { .. } => self.bytes.push(48),
            DecodedOp::InsVal { obj, val, .. } => {
                self.bytes.push(72);
                self.encode_id(*obj);
                self.encode_id(*val);
                assert(self.bytes@ =~= start + op_bytes(sid, op.op_view()));
            },
            DecodedOp::InsObj { obj, data, .. } => {
                self.write_op_len(10, data.len() as u64);
                self.encode_id(*obj);
                self.encode_obj_entries(data);
                assert(self.bytes@ =~= start + op_bytes(sid, op.op_view()));
            },
            DecodedOp::InsVec { obj, data, .. } => {
                self.write_op_len(11, data.len() as u64);
                self.encode_id(*obj);
                match self.encode_vec_entries(data) {
                    Ok(()) => {},
                    Err(e) => {
                        return Err(e);
                    },
                }
                assert(self.bytes@ =~= start + op_bytes(sid, op.op_view()));
            },
            DecodedOp::InsStr { obj, reference, data, .. } => {
                let utf8 = data.as_str().as_bytes();
                self.write_op_len(12, utf8.len() as u64);
                self.encode_id(*obj);
                self.encode_id(*reference);
                push_all(&mut self.bytes, utf8);
                assert(self.bytes@ =~= start + op_bytes(sid, op.op_view()));
            },
            DecodedOp::InsBin { obj, reference, data, .. } => {
                self.write_op_len(13, data.len() as u64);
                self.encode_id(*obj);
                self.encode_id(*reference);
                push_all(&mut self.bytes, data.as_slice());
                assert(self.bytes@ =~= start + op_bytes(sid, op.op_view()));
            },
            DecodedOp::InsArr { obj, reference, data, .. } => {
                self.write_op_len(14, data.len() as u64);
                self.encode_id(*obj);
                self.encode_id(*reference);
                self.encode_ids(data);
                assert(self.bytes@ =~= start + op_bytes(sid, op.op_view()));
            },
            DecodedOp::UpdArr { obj, reference, val, .. } => {
                self.bytes.push(120);
                self.encode_id(*obj);
                self.encode_id(*reference);
                self.encode_id(*val);
                assert(self.bytes@ =~= start + op_bytes(sid, op.op_view()));
            },
            DecodedOp::Del { obj, what, .. } => {
                self.write_op_len(16, what.len() as u64);
                self.encode_id(*obj);
                self.encode_spans(what);
                assert(self.bytes@ =~= start + op_bytes(sid, op.op_view()));
            },
            DecodedOp::Nop { len, .. } => self.write_op_len(17, *len),
        }
        Ok(())
    }
}

/// Encodes operations as a patch of session `sid` whose first operation has
/// time `time`. Each operation must carry the identifier of its place on that
/// timeline (the first one off it is reported), and vector indices must fit
/// in a byte.
pub fn encode_patch_from_ops(sid: u64, time: u64, ops: &[DecodedOp]) -> (res: Result<
    Vec<u8>,
    PatchBuildError,
>)
    ensures
        match spec_encode_patch(sid, time, ops_view(ops@)) {
            Ok(bytes) => res matches Ok(out) && out@ == bytes,
            Err(e) => res == Err::<Vec<u8>, PatchBuildError>(e),
        },
{
    let ghost v = ops_view(ops@);
    match validate_canonical_ids(sid, time, ops) {
        Ok(()) => {},
        Err(e) => {
            proof {
                let i = choose|i: int| first_off_timeline(sid, time, v, i) && e == timeline_error(sid, time, v, i);
                let j = choose|j: int| first_off_timeline(sid, time, v, j);
                lemma_first_off_unique(sid, time, v, i, j);
            }
            return Err(e);
        },
    }
    let mut w = Writer { bytes: Vec::new(), patch_sid: sid };
    write_vu57(&mut w.bytes, sid);
    write_vu57(&mut w.bytes, time);
    w.bytes.push(0xf7);
    write_vu57(&mut w.bytes, ops.len() as u64);
    let ghost head = w.bytes@;
    assert(v.take(0) =~= Seq::<OpView>::empty());
    let mut i: usize = 0;
    while i < ops.len()
        invariant
            i <= ops@.len(),
            v == ops_view(ops@),
            v.len() == ops@.len(),
            w.patch_sid == sid,
            on_timeline(sid, time, v),
            w.bytes@ == head + ops_bytes(sid, v.take(i as int)),
            forall|k: int| 0 <= k < i ==> #[trigger] vec_indices_fit(v[k]),
        decreases ops.len() - i,
    {
        assert(v[i as int] == ops@[i as int].op_view());
        match w.encode_op(&ops[i]) {
            Ok(()) => {},
            Err(e) => {
                assert(!vec_indices_fit(v[i as int]));
                return Err(e);
            },
        }
        assert(v.take(i + 1).drop_last() =~= v.take(i as int));
        assert(w.bytes@ =~= head + ops_bytes(sid, v.take(i + 1)));
        i = i + 1;
    }
    assert(v.take(ops@.len() as int) =~= v);
    assert(w.bytes@ =~= patch_bytes(sid, time, v));
    Ok(w.bytes)
}

// ---------------------------------------------------------------------------
// The builder
// ---------------------------------------------------------------------------

/// Collects operations for one patch.
#[derive(Debug)]
pub struct PatchBuilder {
    sid: u64,
    time: u64,
    ops: Vec<DecodedOp>,
}

impl PatchBuilder {
    /// The session id the patch is for.
    pub closed spec fn spec_sid(&self) -> u64 {
        self.sid
    }

    /// The time of the patch's first operation.
    pub closed spec fn spec_time(&self) -> u64 {
        self.time
    }

    /// The operations collected so far.
    pub closed spec fn spec_ops(&self) -> Seq<DecodedOp> {
        self.ops@
    }

    /// A builder with no operations.
    pub fn new(sid: u64, time: u64) -> (res: Self)
        ensures
            res.spec_sid() == sid,
            res.spec_time() == time,
            res.spec_ops().len() == 0,
    {
        PatchBuilder { sid, time, ops: Vec::new() }
    }

    /// The session id.
    pub fn sid(&self) -> (res: u64)
        ensures
            res == self.spec_sid(),
    {
        self.sid
    }

    /// The time of the first operation.
    pub fn time(&self) -> (res: u64)
        ensures
            res == self.spec_time(),
    {
        self.time
    }

    /// The operations collected so far.
    pub fn ops(&self) -> (res: &[DecodedOp])
        ensures
            res@ == self.spec_ops(),
    {
        self.ops.as_slice()
    }

    /// Adds an operation at the end.
    pub fn push_op(&mut self, op: DecodedOp)
        ensures
            final(self).spec_sid() == old(self).spec_sid(),
            final(self).spec_time() == old(self).spec_time(),
            final(self).spec_ops() == old(self).spec_ops().push(op),
    {
        self.ops.push(op);
    }

    /// The patch's bytes (see `encode_patch_from_ops`).
    pub fn into_bytes(self) -> (res: Result<Vec<u8>, PatchBuildError>)
        ensures
            match spec_encode_patch(self.spec_sid(), self.spec_time(), ops_view(self.spec_ops())) {
                Ok(bytes) => res matches Ok(out) && out@ == bytes,
                Err(e) => res == Err::<Vec<u8>, PatchBuildError>(e),
            },
    {
        encode_patch_from_ops(self.sid, self.time, self.ops.as_slice())
    }

    /// The patch, decoded back from its bytes.
    pub fn into_patch(self) -> (res: Result<Patch, PatchBuildError>)
        ensures
            match spec_encode_patch(self.spec_sid(), self.spec_time(), ops_view(self.spec_ops())) {
                Ok(bytes) => match res {
                    Ok(p) => p.spec_bytes() == bytes && (p.spec_is_blank() || p.spec_describes(
                        bytes,
                    )),
                    Err(e) => e == PatchBuildError::EncodedPatchDecode(PatchError::InvalidCbor)
                        && bytes.len() > 0 && bytes[0] == 0x7b,
                },
                Err(e) => res == Err::<Patch, PatchBuildError>(e),
            },
    {
        let bytes = match self.into_bytes() {
            Ok(b) => b,
            Err(e) => {
                return Err(e);
            },
        };
        match Patch::from_binary(bytes.as_slice()) {
            Ok(p) => Ok(p),
            Err(e) => Err(PatchBuildError::EncodedPatchDecode(e)),
        }
    }
}

} // verus!
