//! Model binary decoding into a JSON view.
//!
//! The layout is the one the runtime graph decoder reads (see
//! `model_runtime::decode`); here identifiers are skipped rather than
//! resolved, the clock table is only checked for its framing, and nodes turn
//! directly into JSON: strings join their live chunks, binary nodes become
//! objects from decimal positions to byte values, arrays keep the nodes of
//! their live chunks, vector slots left empty become null, and reference
//! constants become null.

use vstd::prelude::*;
use crate::cbor::{cbor_json, cbor_read_one, cbor_to_json, int_to_json, spec_int_to_json, CborHead, CborRead};
use crate::crdt_binary::{read_b1vu56, read_vu57, spec_read_b1vu56, spec_read_vu57, be_u32, lemma_read_vu57_pos, lemma_read_b1vu56_pos};
use crate::json::{JsonNumber, JsonValue, JsonView, object_insert, entry_keys};
use crate::model_runtime::decode::sd_cbor;
use crate::text::{decimal, push_decimal, chars_to_string, str_chars};
use crate::model_runtime::view::{entries_jv, items_jv};

verus! {

/// Failures of model binary decoding.
#[derive(Debug, Clone, Copy, PartialEq, Eq, Structural)]
pub enum ModelError {
    InvalidModelBinary,
    InvalidClockTable,
}

/// A JSON value as decoded bytes describe it; `Known` holds the value of a
/// CBOR item other than text or an integer.
pub enum JsonDesc {
    Null,
    Bool(bool),
    Number(JsonNumber),
    String(Seq<char>),
    Array(Seq<JsonDesc>),
    Object(Seq<(Seq<char>, JsonDesc)>),
    Known(JsonView),
}

/// A JSON value agrees with its description.
pub open spec fn json_agrees(v: JsonView, d: JsonDesc) -> bool
    decreases d,
{
    match d {
        JsonDesc::Known(j) => v == j,
        JsonDesc::Null => v == JsonView::Null,
        JsonDesc::Bool(b) => v == JsonView::Bool(b),
        JsonDesc::Number(n) => v == JsonView::Number(n),
        JsonDesc::String(s) => v == JsonView::String(s),
        JsonDesc::Array(ds) => match v {
            JsonView::Array(vs) => vs.len() == ds.len() && forall|i: int| 0 <= i < ds.len() ==> json_agrees(#[trigger] vs[i], ds[i]),
            _ => false,
        },
        JsonDesc::Object(des) => match v {
            JsonView::Object(ves) => ves.len() == des.len() && forall|i: int| 0 <= i < des.len() ==> (#[trigger] ves[i]).0 == des[i].0 && json_agrees(ves[i].1, des[i].1),
            _ => false,
        },
    }
}

/// The outcome of a step: a value, the position after it and a mark for a
/// value left open; or a failure with that mark. No step sets the mark
/// (`lemma_view_settled`).
pub enum VDec<T> {
    Done(T, int, bool),
    Fail(ModelError, bool),
}

/// Whether an outcome met a value left open.
pub open spec fn vdec_flag<T>(d: VDec<T>) -> bool {
    match d {
        VDec::Done(_, _, o) => o,
        VDec::Fail(_, o) => o,
    }
}

/// An error `e2` is an outcome the description allows.
pub open spec fn verr_ok<T>(d: VDec<T>, e2: ModelError) -> bool {
    match d {
        VDec::Done(_, _, o) => o && e2 == ModelError::InvalidModelBinary,
        VDec::Fail(e, o) => e2 == e || (o && e2 == ModelError::InvalidModelBinary),
    }
}

/// Skipping an identifier at `pos`: one byte below 0x80, else a `b1vu56`
/// and a `vu57`.
pub open spec fn mv_skip_id(data: Seq<u8>, pos: int) -> Result<int, ModelError> {
    if pos < 0 || pos >= data.len() {
        Err(ModelError::InvalidModelBinary)
    } else if data[pos] <= 0x7f {
        Ok(pos + 1)
    } else {
        match spec_read_b1vu56(data, pos) {
            (None, _) => Err(ModelError::InvalidModelBinary),
            (Some(_), p) => match spec_read_vu57(data, p) {
                (None, _) => Err(ModelError::InvalidModelBinary),
                (Some(_), p2) => Ok(p2),
            },
        }
    }
}

/// Sets `k` to `v` among described object entries: in place when the key is
/// there, else appended.
pub open spec fn desc_set(es: Seq<(Seq<char>, JsonDesc)>, k: Seq<char>, v: JsonDesc) -> Seq<(Seq<char>, JsonDesc)> {
    if exists|i: int| 0 <= i < es.len() && es[i].0 == k {
        let i = choose|i: int| 0 <= i < es.len() && es[i].0 == k;
        es.update(i, (k, v))
    } else {
        es.push((k, v))
    }
}

/// The description of the object from decimal positions to byte values.
pub open spec fn bytes_desc(bs: Seq<u8>) -> Seq<(Seq<char>, JsonDesc)> {
    Seq::new(bs.len(), |i: int| (decimal(i as nat), JsonDesc::Number(JsonNumber::PosInt(bs[i] as u64))))
}

/// The node at `pos`, going at most `fuel` levels deep.
pub open spec fn mv_node(data: Seq<u8>, pos: int, fuel: nat) -> VDec<JsonDesc>
    decreases fuel, 0nat, 0nat,
{
    if fuel == 0 {
        VDec::Fail(ModelError::InvalidModelBinary, false)
    } else {
        match mv_skip_id(data, pos) {
            Err(e) => VDec::Fail(e, false),
            Ok(p1) => if p1 < 0 || p1 >= data.len() {
                VDec::Fail(ModelError::InvalidModelBinary, false)
            } else {
                mv_body(data, p1 + 1, (fuel - 1) as nat, data[p1])
            },
        }
    }
}

/// A length: `minor` itself, or a `vu57` at `pos` when it is 31.
pub open spec fn mv_len(data: Seq<u8>, pos: int, minor: u8) -> Result<(u64, int), ModelError> {
    if minor != 31 {
        Ok((minor as u64, pos))
    } else {
        match spec_read_vu57(data, pos) {
            (Some(v), p) => Ok((v, p)),
            (None, _) => Err(ModelError::InvalidModelBinary),
        }
    }
}

/// The rest of a node after its octet `oct`, at `pos`.
pub open spec fn mv_body(data: Seq<u8>, pos: int, fuel: nat, oct: u8) -> VDec<JsonDesc>
    decreases fuel, 3nat, 0nat,
{
    let major = oct >> 5u8;
    let minor = oct & 0x1fu8;
    if major == 0 {
        if minor == 0 {
            match sd_cbor(data, pos) {
                None => VDec::Fail(ModelError::InvalidModelBinary, false),
                Some((CborHead::Text(t), p)) => VDec::Done(JsonDesc::String(t), p, false),
                Some((CborHead::Integer(i), p)) => match spec_int_to_json(i) {
                    Some(n) => VDec::Done(JsonDesc::Number(n), p, false),
                    None => VDec::Fail(ModelError::InvalidModelBinary, false),
                },
                Some((CborHead::Other(v), p)) => match cbor_json(v, 257) {
                    Some(j) => VDec::Done(JsonDesc::Known(j), p, false),
                    None => VDec::Fail(ModelError::InvalidModelBinary, false),
                },
            }
        } else {
            match mv_skip_id(data, pos) {
                Ok(p) => VDec::Done(JsonDesc::Null, p, false),
                Err(e) => VDec::Fail(e, false),
            }
        }
    } else if major == 1 {
        mv_node(data, pos, fuel)
    } else if major <= 6 {
        match mv_len(data, pos, minor) {
            Err(e) => VDec::Fail(e, false),
            Ok((n, p)) => if major == 2 {
                match mv_obj(data, p, fuel, n as nat) {
                    VDec::Done(es, p2, o) => VDec::Done(JsonDesc::Object(es), p2, o),
                    VDec::Fail(e, o) => VDec::Fail(e, o),
                }
            } else if major == 3 {
                match mv_vec(data, p, fuel, n as nat) {
                    VDec::Done(items, p2, o) => VDec::Done(JsonDesc::Array(items), p2, o),
                    VDec::Fail(e, o) => VDec::Fail(e, o),
                }
            } else if major == 4 {
                match mv_str(data, p, n as nat) {
                    VDec::Done(t, p2, o) => VDec::Done(JsonDesc::String(t), p2, o),
                    VDec::Fail(e, o) => VDec::Fail(e, o),
                }
            } else if major == 5 {
                match mv_bin(data, p, n as nat) {
                    VDec::Done(bs, p2, o) => VDec::Done(JsonDesc::Object(bytes_desc(bs)), p2, o),
                    VDec::Fail(e, o) => VDec::Fail(e, o),
                }
            } else {
                match mv_arr(data, p, fuel, n as nat) {
                    VDec::Done(items, p2, o) => VDec::Done(JsonDesc::Array(items), p2, o),
                    VDec::Fail(e, o) => VDec::Fail(e, o),
                }
            }
        }
    } else {
        VDec::Fail(ModelError::InvalidModelBinary, false)
    }
}

/// `k` object entries: a CBOR text key and a node each.
pub open spec fn mv_obj(data: Seq<u8>, pos: int, fuel: nat, k: nat) -> VDec<Seq<(Seq<char>, JsonDesc)>>
    decreases fuel, 1nat, k,
{
    if k == 0 {
        VDec::Done(Seq::empty(), pos, false)
    } else {
        match mv_obj(data, pos, fuel, (k - 1) as nat) {
            VDec::Fail(e, o) => VDec::Fail(e, o),
            VDec::Done(es, p1, o1) => match sd_cbor(data, p1) {
                Some((CborHead::Text(key), p2)) => match mv_node(data, p2, fuel) {
                    VDec::Done(v, p3, o2) => VDec::Done(desc_set(es, key, v), p3, o1 || o2),
                    VDec::Fail(e, o2) => VDec::Fail(e, o1 || o2),
                },
                _ => VDec::Fail(ModelError::InvalidModelBinary, o1),
            },
        }
    }
}

/// `k` vector slots: a zero byte for null, else a node.
pub open spec fn mv_vec(data: Seq<u8>, pos: int, fuel: nat, k: nat) -> VDec<Seq<JsonDesc>>
    decreases fuel, 1nat, k,
{
    if k == 0 {
        VDec::Done(Seq::empty(), pos, false)
    } else {
        match mv_vec(data, pos, fuel, (k - 1) as nat) {
            VDec::Fail(e, o) => VDec::Fail(e, o),
            VDec::Done(items, p1, o1) => if p1 < 0 || p1 >= data.len() {
                VDec::Fail(ModelError::InvalidModelBinary, o1)
            } else if data[p1] == 0 {
                VDec::Done(items.push(JsonDesc::Null), p1 + 1, o1)
            } else {
                match mv_node(data, p1, fuel) {
                    VDec::Done(v, p2, o2) => VDec::Done(items.push(v), p2, o1 || o2),
                    VDec::Fail(e, o2) => VDec::Fail(e, o1 || o2),
                }
            },
        }
    }
}

/// `k` string chunks: an identifier, then a CBOR text (kept) or a CBOR
/// integer in the range of `u64` (a deleted run).
pub open spec fn mv_str(data: Seq<u8>, pos: int, k: nat) -> VDec<Seq<char>>
    decreases k,
{
    if k == 0 {
        VDec::Done(Seq::empty(), pos, false)
    } else {
        match mv_str(data, pos, (k - 1) as nat) {
            VDec::Fail(e, o) => VDec::Fail(e, o),
            VDec::Done(t, p1, o1) => match mv_skip_id(data, p1) {
                Err(e) => VDec::Fail(e, o1),
                Ok(p2) => match sd_cbor(data, p2) {
                    Some((CborHead::Text(s), p3)) => VDec::Done(t + s, p3, o1),
                    Some((CborHead::Integer(i), p3)) => if 0 <= i <= u64::MAX {
                        VDec::Done(t, p3, o1)
                    } else {
                        VDec::Fail(ModelError::InvalidModelBinary, o1)
                    },
                    _ => VDec::Fail(ModelError::InvalidModelBinary, o1),
                },
            },
        }
    }
}

/// `k` binary chunks: an identifier, then a `b1vu56` whose flag marks a
/// deleted run, then the bytes of a live run.
pub open spec fn mv_bin(data: Seq<u8>, pos: int, k: nat) -> VDec<Seq<u8>>
    decreases k,
{
    if k == 0 {
        VDec::Done(Seq::empty(), pos, false)
    } else {
        match mv_bin(data, pos, (k - 1) as nat) {
            VDec::Fail(e, o) => VDec::Fail(e, o),
            VDec::Done(bs, p1, o1) => match mv_skip_id(data, p1) {
                Err(e) => VDec::Fail(e, o1),
                Ok(p2) => match spec_read_b1vu56(data, p2) {
                    (None, _) => VDec::Fail(ModelError::InvalidModelBinary, o1),
                    (Some((deleted, span)), p3) => if deleted == 1 {
                        VDec::Done(bs, p3, o1)
                    } else if p3 + span > data.len() {
                        VDec::Fail(ModelError::InvalidModelBinary, o1)
                    } else {
                        VDec::Done(bs + data.subrange(p3, p3 + span), p3 + span, o1)
                    },
                },
            },
        }
    }
}

/// `k` array chunks: an identifier, then a `b1vu56` whose flag marks a
/// deleted run, then the nodes of a live run.
pub open spec fn mv_arr(data: Seq<u8>, pos: int, fuel: nat, k: nat) -> VDec<Seq<JsonDesc>>
    decreases fuel, 2nat, k,
{
    if k == 0 {
        VDec::Done(Seq::empty(), pos, false)
    } else {
        match mv_arr(data, pos, fuel, (k - 1) as nat) {
            VDec::Fail(e, o) => VDec::Fail(e, o),
            VDec::Done(items, p1, o1) => match mv_skip_id(data, p1) {
                Err(e) => VDec::Fail(e, o1),
                Ok(p2) => match spec_read_b1vu56(data, p2) {
                    (None, _) => VDec::Fail(ModelError::InvalidModelBinary, o1),
                    (Some((deleted, span)), p3) => if deleted == 1 {
                        VDec::Done(items, p3, o1)
                    } else {
                        match mv_nodes(data, p3, fuel, span as nat) {
                            VDec::Done(vs, p4, o2) => VDec::Done(items + vs, p4, o1 || o2),
                            VDec::Fail(e, o2) => VDec::Fail(e, o1 || o2),
                        }
                    },
                },
            },
        }
    }
}

/// `n` nodes in a row.
pub open spec fn mv_nodes(data: Seq<u8>, pos: int, fuel: nat, n: nat) -> VDec<Seq<JsonDesc>>
    decreases fuel, 1nat, n,
{
    if n == 0 {
        VDec::Done(Seq::empty(), pos, false)
    } else {
        match mv_nodes(data, pos, fuel, (n - 1) as nat) {
            VDec::Fail(e, o) => VDec::Fail(e, o),
            VDec::Done(vs, p1, o1) => match mv_node(data, p1, fuel) {
                VDec::Done(v, p2, o2) => VDec::Done(vs.push(v), p2, o1 || o2),
                VDec::Fail(e, o2) => VDec::Fail(e, o1 || o2),
            },
        }
    }
}

/// The root at `pos`: a zero byte for null, else a node.
pub open spec fn mv_root(data: Seq<u8>, pos: int) -> VDec<JsonDesc> {
    if pos < 0 || pos >= data.len() {
        VDec::Fail(ModelError::InvalidModelBinary, false)
    } else if data[pos] == 0 {
        VDec::Done(JsonDesc::Null, pos + 1, false)
    } else {
        mv_node(data, pos, (data.len() + 1) as nat)
    }
}

/// `k` pairs of `vu57` from `pos`, as the clock table's framing check reads
/// them: the position after them.
pub open spec fn mv_skip_pairs(data: Seq<u8>, pos: int, k: nat) -> Result<int, ModelError>
    decreases k,
{
    if k == 0 {
        Ok(pos)
    } else {
        match mv_skip_pairs(data, pos, (k - 1) as nat) {
            Err(e) => Err(e),
            Ok(p) => match spec_read_vu57(data, p) {
                (Some(_), p1) => match spec_read_vu57(data, p1) {
                    (Some(_), p2) => Ok(p2),
                    (None, _) => Err(ModelError::InvalidModelBinary),
                },
                (None, _) => Err(ModelError::InvalidModelBinary),
            },
        }
    }
}

/// The framing check of a clock table at `pos`: a non-zero `vu57` count,
/// then that many pairs of `vu57`.
pub open spec fn mv_check_table(data: Seq<u8>, pos: int) -> Result<(), ModelError> {
    match spec_read_vu57(data, pos) {
        (None, _) => Err(ModelError::InvalidModelBinary),
        (Some(n), p) => if n == 0 {
            Err(ModelError::InvalidClockTable)
        } else {
            match mv_skip_pairs(data, p, n as nat) {
                Ok(_) => Ok(()),
                Err(e) => Err(e),
            }
        },
    }
}

/// The JSON view a model binary describes, with whether a value left open
/// was met; or a failure.
pub open spec fn spec_model_view(data: Seq<u8>) -> VDec<JsonDesc> {
    if data.len() == 0 {
        VDec::Fail(ModelError::InvalidModelBinary, false)
    } else if data[0] & 0x80u8 != 0 {
        match spec_read_vu57(data, 1) {
            (None, _) => VDec::Fail(ModelError::InvalidModelBinary, false),
            (Some(_), p) => match mv_root(data, p) {
                VDec::Done(v, p2, o) => if p2 != data.len() {
                    VDec::Fail(ModelError::InvalidModelBinary, o)
                } else {
                    VDec::Done(v, p2, o)
                },
                VDec::Fail(e, o) => VDec::Fail(e, o),
            },
        }
    } else if data.len() < 4 {
        VDec::Fail(ModelError::InvalidClockTable, false)
    } else {
        let end = 4 + be_u32(data);
        if end > usize::MAX || end > data.len() {
            VDec::Fail(ModelError::InvalidClockTable, false)
        } else {
            match mv_check_table(data.subrange(end, data.len() as int), 0) {
                Err(e) => VDec::Fail(e, false),
                Ok(_) => {
                    let tree = data.subrange(4, end);
                    match mv_root(tree, 0) {
                        VDec::Done(v, p2, o) => if p2 != tree.len() {
                            VDec::Fail(ModelError::InvalidModelBinary, o)
                        } else {
                            VDec::Done(v, p2, o)
                        },
                        VDec::Fail(e, o) => VDec::Fail(e, o),
                    }
                },
            }
        }
    }
}


// ---------------------------------------------------------------------------
// Lemmas
// ---------------------------------------------------------------------------

/// Object entries agree with described ones, entry by entry.
pub open spec fn entries_agree(ves: Seq<(Seq<char>, JsonView)>, des: Seq<(Seq<char>, JsonDesc)>) -> bool {
    ves.len() == des.len() && forall|i: int| 0 <= i < des.len() ==> (#[trigger] ves[i]).0 == des[i].0 && json_agrees(ves[i].1, des[i].1)
}

/// Items agree with described ones, item by item.
pub open spec fn items_agree(vs: Seq<JsonView>, ds: Seq<JsonDesc>) -> bool {
    vs.len() == ds.len() && forall|i: int| 0 <= i < ds.len() ==> json_agrees(#[trigger] vs[i], ds[i])
}

/// The keys of described entries are distinct.
pub open spec fn desc_keys_distinct(des: Seq<(Seq<char>, JsonDesc)>) -> bool {
    forall|i: int, j: int| 0 <= i < j < des.len() ==> (#[trigger] des[i]).0 != (#[trigger] des[j]).0
}

/// Setting a key keeps agreement and distinct keys.
proof fn lemma_desc_set(
    old_es: Seq<(String, JsonValue)>,
    new_es: Seq<(String, JsonValue)>,
    key: String,
    value: JsonValue,
    des: Seq<(Seq<char>, JsonDesc)>,
    dv: JsonDesc,
)
    requires
        ({
            let old_keys = entry_keys(old_es);
            if old_keys.contains(key@) {
                exists|i: int|
                    0 <= i < old_es.len() && old_keys[i] == key@ && new_es == old_es.update(i, (old_es[i].0, value))
            } else {
                new_es == old_es.push((key, value))
            }
        }),
        entries_agree(entries_jv(old_es), des),
        desc_keys_distinct(des),
        json_agrees(value.jv(), dv),
    ensures
        entries_agree(entries_jv(new_es), desc_set(des, key@, dv)),
        desc_keys_distinct(desc_set(des, key@, dv)),
{
    let ov = entries_jv(old_es);
    let nv = entries_jv(new_es);
    assert forall|i: int| 0 <= i < old_es.len() implies #[trigger] entry_keys(old_es)[i] == des[i].0 by {
        assert(ov[i].0 == des[i].0);
    }
    if entry_keys(old_es).contains(key@) {
        let i = choose|i: int|
            0 <= i < old_es.len() && entry_keys(old_es)[i] == key@ && new_es == old_es.update(i, (old_es[i].0, value));
        assert(des[i].0 == key@);
        let c = choose|c: int| 0 <= c < des.len() && des[c].0 == key@;
        assert(c == i) by {
            if c != i {
                if c < i {
                    assert(des[c].0 != des[i].0);
                } else {
                    assert(des[i].0 != des[c].0);
                }
            }
        }
        let d2 = desc_set(des, key@, dv);
        assert(d2 == des.update(i, (key@, dv)));
        assert forall|j: int| 0 <= j < d2.len() implies (#[trigger] nv[j]).0 == d2[j].0 && json_agrees(nv[j].1, d2[j].1) by {
            if j != i {
                assert(nv[j] == ov[j]);
            }
        }
        assert forall|a: int, b: int| 0 <= a < b < d2.len() implies (#[trigger] d2[a]).0 != (#[trigger] d2[b]).0 by {
            assert(d2[a].0 == des[a].0 && d2[b].0 == des[b].0);
        }
    } else {
        assert(!(exists|i: int| 0 <= i < des.len() && des[i].0 == key@)) by {
            if exists|i: int| 0 <= i < des.len() && des[i].0 == key@ {
                let i = choose|i: int| 0 <= i < des.len() && des[i].0 == key@;
                assert(entry_keys(old_es)[i] == key@);
            }
        }
        let d2 = desc_set(des, key@, dv);
        assert(d2 == des.push((key@, dv)));
        assert forall|j: int| 0 <= j < d2.len() implies (#[trigger] nv[j]).0 == d2[j].0 && json_agrees(nv[j].1, d2[j].1) by {
            if j < des.len() {
                assert(nv[j] == ov[j]);
            }
        }
        assert forall|a: int, b: int| 0 <= a < b < d2.len() implies (#[trigger] d2[a]).0 != (#[trigger] d2[b]).0 by {
            if b == des.len() {
                assert(d2[a] == des[a]);
            }
        }
    }
}

proof fn lemma_obj_verr(data: Seq<u8>, pos: int, fuel: nat, i: nat, n: nat, e2: ModelError)
    requires
        i <= n,
        verr_ok(mv_obj(data, pos, fuel, i), e2),
    ensures
        verr_ok(mv_obj(data, pos, fuel, n), e2),
    decreases n,
{
    if n > i {
        lemma_obj_verr(data, pos, fuel, i, (n - 1) as nat, e2);
    }
}

proof fn lemma_vec_verr(data: Seq<u8>, pos: int, fuel: nat, i: nat, n: nat, e2: ModelError)
    requires
        i <= n,
        verr_ok(mv_vec(data, pos, fuel, i), e2),
    ensures
        verr_ok(mv_vec(data, pos, fuel, n), e2),
    decreases n,
{
    if n > i {
        lemma_vec_verr(data, pos, fuel, i, (n - 1) as nat, e2);
    }
}

proof fn lemma_str_verr(data: Seq<u8>, pos: int, i: nat, n: nat, e2: ModelError)
    requires
        i <= n,
        verr_ok(mv_str(data, pos, i), e2),
    ensures
        verr_ok(mv_str(data, pos, n), e2),
    decreases n,
{
    if n > i {
        lemma_str_verr(data, pos, i, (n - 1) as nat, e2);
    }
}

proof fn lemma_bin_verr(data: Seq<u8>, pos: int, i: nat, n: nat, e2: ModelError)
    requires
        i <= n,
        verr_ok(mv_bin(data, pos, i), e2),
    ensures
        verr_ok(mv_bin(data, pos, n), e2),
    decreases n,
{
    if n > i {
        lemma_bin_verr(data, pos, i, (n - 1) as nat, e2);
    }
}

proof fn lemma_arr_verr(data: Seq<u8>, pos: int, fuel: nat, i: nat, n: nat, e2: ModelError)
    requires
        i <= n,
        verr_ok(mv_arr(data, pos, fuel, i), e2),
    ensures
        verr_ok(mv_arr(data, pos, fuel, n), e2),
    decreases n,
{
    if n > i {
        lemma_arr_verr(data, pos, fuel, i, (n - 1) as nat, e2);
    }
}

proof fn lemma_nodes_verr(data: Seq<u8>, pos: int, fuel: nat, i: nat, n: nat, e2: ModelError)
    requires
        i <= n,
        verr_ok(mv_nodes(data, pos, fuel, i), e2),
    ensures
        verr_ok(mv_nodes(data, pos, fuel, n), e2),
    decreases n,
{
    if n > i {
        lemma_nodes_verr(data, pos, fuel, i, (n - 1) as nat, e2);
    }
}

proof fn lemma_skip_pairs_err(data: Seq<u8>, pos: int, i: nat, n: nat)
    requires
        i <= n,
        mv_skip_pairs(data, pos, i) == Err::<int, ModelError>(ModelError::InvalidModelBinary),
    ensures
        mv_skip_pairs(data, pos, n) == Err::<int, ModelError>(ModelError::InvalidModelBinary),
    decreases n,
{
    if n > i {
        lemma_skip_pairs_err(data, pos, i, (n - 1) as nat);
    }
}

// ---------------------------------------------------------------------------
// The decoder
// ---------------------------------------------------------------------------

struct ViewReader<'a> {
    data: &'a [u8],
    pos: usize,
}

impl<'a> ViewReader<'a> {
    spec fn keeps(&self, o: &Self) -> bool {
        &&& self.data@ == o.data@
        &&& o.pos <= self.pos <= self.data@.len()
    }

    fn skip_id(&mut self) -> (res: Result<(), ModelError>)
        requires
            old(self).pos <= old(self).data@.len(),
        ensures
            final(self).keeps(old(self)),
            match mv_skip_id(old(self).data@, old(self).pos as int) {
                Ok(p) => res is Ok && final(self).pos == p,
                Err(e) => res == Err::<(), ModelError>(e),
            },
    {
        if self.pos >= self.data.len() {
            return Err(ModelError::InvalidModelBinary);
        }
        if self.data[self.pos] <= 0x7f {
            self.pos = self.pos + 1;
            return Ok(());
        }
        let mut p = self.pos;
        proof {
            lemma_read_b1vu56_pos(self.data@, p as int);
        }
        if read_b1vu56(self.data, &mut p).is_none() {
            return Err(ModelError::InvalidModelBinary);
        }
        proof {
            lemma_read_vu57_pos(self.data@, p as int);
        }
        if read_vu57(self.data, &mut p).is_none() {
            return Err(ModelError::InvalidModelBinary);
        }
        self.pos = p;
        Ok(())
    }

    fn cbor(&mut self) -> (res: Option<CborRead>)
        requires
            old(self).pos <= old(self).data@.len(),
        ensures
            final(self).keeps(old(self)),
            match res {
                Some(CborRead::Text(s, _)) => sd_cbor(old(self).data@, old(self).pos as int) == Some((CborHead::Text(s@), final(self).pos as int)),
                Some(CborRead::Integer(i, _)) => sd_cbor(old(self).data@, old(self).pos as int) == Some((CborHead::Integer(i as int), final(self).pos as int)),
                Some(CborRead::Other(v, _)) => sd_cbor(old(self).data@, old(self).pos as int) == Some((CborHead::Other(v), final(self).pos as int)),
                None => sd_cbor(old(self).data@, old(self).pos as int) is None,
            },
    {
        let slice = vstd::slice::slice_subrange(self.data, self.pos, self.data.len());
        let r = cbor_read_one(slice);
        match r {
            None => None,
            Some(item) => {
                let n = match &item {
                    CborRead::Text(_, n) => *n,
                    CborRead::Integer(_, n) => *n,
                    CborRead::Other(_, n) => *n,
                };
                self.pos = self.pos + n;
                Some(item)
            },
        }
    }

    fn len(&mut self, minor: u8) -> (res: Result<u64, ModelError>)
        requires
            old(self).pos <= old(self).data@.len(),
        ensures
            final(self).keeps(old(self)),
            match mv_len(old(self).data@, old(self).pos as int, minor) {
                Ok((v, p)) => res == Ok::<u64, ModelError>(v) && final(self).pos == p,
                Err(e) => res == Err::<u64, ModelError>(e),
            },
    {
        if minor != 31 {
            return Ok(minor as u64);
        }
        let mut p = self.pos;
        proof {
            lemma_read_vu57_pos(self.data@, p as int);
        }
        match read_vu57(self.data, &mut p) {
            Some(v) => {
                self.pos = p;
                Ok(v)
            },
            None => Err(ModelError::InvalidModelBinary),
        }
    }

    fn node(&mut self, Ghost(fuel): Ghost<nat>) -> (res: Result<JsonValue, ModelError>)
        requires
            old(self).pos <= old(self).data@.len(),
            fuel > old(self).data@.len() - old(self).pos,
        ensures
            final(self).keeps(old(self)),
            ({
                let d = mv_node(old(self).data@, old(self).pos as int, fuel);
                match res {
                    Ok(v) => d matches VDec::Done(dv, p, _) && json_agrees(v.jv(), dv) && final(self).pos == p,
                    Err(e2) => verr_ok(d, e2),
                }
            }),
        decreases fuel, 0nat, 0nat,
    {
        match self.skip_id() {
            Ok(()) => {},
            Err(e) => {
                return Err(e);
            },
        }
        if self.pos >= self.data.len() {
            return Err(ModelError::InvalidModelBinary);
        }
        let oct = self.data[self.pos];
        self.pos = self.pos + 1;
        self.body(oct, Ghost((fuel - 1) as nat))
    }

    fn body(&mut self, oct: u8, Ghost(fuel): Ghost<nat>) -> (res: Result<JsonValue, ModelError>)
        requires
            old(self).pos <= old(self).data@.len(),
            fuel > old(self).data@.len() - old(self).pos,
        ensures
            final(self).keeps(old(self)),
            ({
                let d = mv_body(old(self).data@, old(self).pos as int, fuel, oct);
                match res {
                    Ok(v) => d matches VDec::Done(dv, p, _) && json_agrees(v.jv(), dv) && final(self).pos == p,
                    Err(e2) => verr_ok(d, e2),
                }
            }),
        decreases fuel, 3nat, 0nat,
    {
        let major = oct >> 5;
        let minor = oct & 0x1f;
        if major == 0 {
            if minor == 0 {
                match self.cbor() {
                    None => Err(ModelError::InvalidModelBinary),
                    Some(CborRead::Text(t, _)) => Ok(JsonValue::String(t)),
                    Some(CborRead::Integer(i, _)) => match int_to_json(i) {
                        Some(n) => Ok(JsonValue::Number(n)),
                        None => Err(ModelError::InvalidModelBinary),
                    },
                    Some(CborRead::Other(v, _)) => match cbor_to_json(&v, 257) {
                        Some(j) => Ok(j),
                        None => Err(ModelError::InvalidModelBinary),
                    },
                }
            } else {
                match self.skip_id() {
                    Ok(()) => Ok(JsonValue::Null),
                    Err(e) => Err(e),
                }
            }
        } else if major == 1 {
            self.node(Ghost(fuel))
        } else if major <= 6 {
            let n = match self.len(minor) {
                Ok(n) => n,
                Err(e) => {
                    return Err(e);
                },
            };
            if major == 2 {
                self.obj(n, Ghost(fuel))
            } else if major == 3 {
                self.vec(n, Ghost(fuel))
            } else if major == 4 {
                self.str_chunks(n)
            } else if major == 5 {
                self.bin_chunks(n)
            } else {
                self.arr(n, Ghost(fuel))
            }
        } else {
            Err(ModelError::InvalidModelBinary)
        }
    }

    fn obj(&mut self, n: u64, Ghost(fuel): Ghost<nat>) -> (res: Result<JsonValue, ModelError>)
        requires
            old(self).pos <= old(self).data@.len(),
            fuel > old(self).data@.len() - old(self).pos,
        ensures
            final(self).keeps(old(self)),
            ({
                let d = mv_obj(old(self).data@, old(self).pos as int, fuel, n as nat);
                match res {
                    Ok(v) => d matches VDec::Done(des, p, _) && json_agrees(v.jv(), JsonDesc::Object(des)) && final(self).pos == p,
                    Err(e2) => verr_ok(d, e2),
                }
            }),
        decreases fuel, 1nat, n,
    {
        let ghost data = self.data@;
        let ghost start = self.pos as int;
        let mut out: Vec<(String, JsonValue)> = Vec::new();
        let ghost mut des: Seq<(Seq<char>, JsonDesc)> = Seq::empty();
        let ghost mut flag = false;
        let mut i: u64 = 0;
        assert(entries_jv(out@) =~= Seq::<(Seq<char>, JsonView)>::empty());
        while i < n
            invariant
                self.data@ == data,
                old(self).data@ == data,
                start == old(self).pos,
                start <= self.pos <= data.len(),
                fuel > data.len() - start,
                i <= n,
                mv_obj(data, start, fuel, i as nat) == VDec::Done(des, self.pos as int, flag),
                entries_agree(entries_jv(out@), des),
                desc_keys_distinct(des),
            decreases n - i,
        {
            match self.cbor() {
                Some(CborRead::Text(key, _)) => {
                    let ghost dn = mv_node(data, self.pos as int, fuel);
                    match self.node(Ghost(fuel)) {
                        Ok(v) => {
                            let ghost o0 = out@;
                            let ghost kv = key@;
                            let ghost vv = v;
                            object_insert(&mut out, key, v);
                            proof {
                                lemma_desc_set(o0, out@, key, vv, des, dn->Done_0);
                                des = desc_set(des, kv, dn->Done_0);
                                flag = flag || dn->Done_2;
                            }
                        },
                        Err(e) => {
                            proof {
                                lemma_obj_verr(data, start, fuel, (i + 1) as nat, n as nat, e);
                            }
                            return Err(e);
                        },
                    }
                },
                _ => {
                    proof {
                        lemma_obj_verr(data, start, fuel, (i + 1) as nat, n as nat, ModelError::InvalidModelBinary);
                    }
                    return Err(ModelError::InvalidModelBinary);
                },
            }
            i = i + 1;
        }
        let res = JsonValue::Object(out);
        proof {
            assert(res.jv()->Object_0 =~= entries_jv(out@));
        }
        Ok(res)
    }

    fn vec(&mut self, n: u64, Ghost(fuel): Ghost<nat>) -> (res: Result<JsonValue, ModelError>)
        requires
            old(self).pos <= old(self).data@.len(),
            fuel > old(self).data@.len() - old(self).pos,
        ensures
            final(self).keeps(old(self)),
            ({
                let d = mv_vec(old(self).data@, old(self).pos as int, fuel, n as nat);
                match res {
                    Ok(v) => d matches VDec::Done(ds, p, _) && json_agrees(v.jv(), JsonDesc::Array(ds)) && final(self).pos == p,
                    Err(e2) => verr_ok(d, e2),
                }
            }),
        decreases fuel, 1nat, n,
    {
        let ghost data = self.data@;
        let ghost start = self.pos as int;
        let mut out: Vec<JsonValue> = Vec::new();
        let ghost mut ds: Seq<JsonDesc> = Seq::empty();
        let ghost mut flag = false;
        let mut i: u64 = 0;
        while i < n
            invariant
                self.data@ == data,
                old(self).data@ == data,
                start == old(self).pos,
                start <= self.pos <= data.len(),
                fuel > data.len() - start,
                i <= n,
                mv_vec(data, start, fuel, i as nat) == VDec::Done(ds, self.pos as int, flag),
                items_agree(items_jv(out@), ds),
            decreases n - i,
        {
            if self.pos >= self.data.len() {
                proof {
                    lemma_vec_verr(data, start, fuel, (i + 1) as nat, n as nat, ModelError::InvalidModelBinary);
                }
                return Err(ModelError::InvalidModelBinary);
            }
            if self.data[self.pos] == 0 {
                self.pos = self.pos + 1;
                let ghost o0 = out@;
                out.push(JsonValue::Null);
                proof {
                    assert(items_jv(out@) =~= items_jv(o0).push(JsonView::Null));
                    ds = ds.push(JsonDesc::Null);
                }
            } else {
                let ghost dn = mv_node(data, self.pos as int, fuel);
                match self.node(Ghost(fuel)) {
                    Ok(v) => {
                        let ghost o0 = out@;
                        let ghost vj = v.jv();
                        out.push(v);
                        proof {
                            assert(items_jv(out@) =~= items_jv(o0).push(vj));
                            ds = ds.push(dn->Done_0);
                            flag = flag || dn->Done_2;
                        }
                    },
                    Err(e) => {
                        proof {
                            lemma_vec_verr(data, start, fuel, (i + 1) as nat, n as nat, e);
                        }
                        return Err(e);
                    },
                }
            }
            i = i + 1;
        }
        let res = JsonValue::Array(out);
        proof {
            assert(res.jv()->Array_0 =~= items_jv(out@));
        }
        Ok(res)
    }

    fn str_chunks(&mut self, n: u64) -> (res: Result<JsonValue, ModelError>)
        requires
            old(self).pos <= old(self).data@.len(),
        ensures
            final(self).keeps(old(self)),
            ({
                let d = mv_str(old(self).data@, old(self).pos as int, n as nat);
                match res {
                    Ok(v) => d matches VDec::Done(t, p, _) && v.jv() == JsonView::String(t) && final(self).pos == p,
                    Err(e2) => verr_ok(d, e2),
                }
            }),
    {
        let ghost data = self.data@;
        let ghost start = self.pos as int;
        let mut chars: Vec<char> = Vec::new();
        let mut i: u64 = 0;
        while i < n
            invariant
                self.data@ == data,
                old(self).data@ == data,
                start == old(self).pos,
                start <= self.pos <= data.len(),
                i <= n,
                mv_str(data, start, i as nat) == VDec::Done(chars@, self.pos as int, false),
            decreases n - i,
        {
            match self.skip_id() {
                Ok(()) => {},
                Err(e) => {
                    proof {
                        lemma_str_verr(data, start, (i + 1) as nat, n as nat, e);
                    }
                    return Err(e);
                },
            }
            match self.cbor() {
                Some(CborRead::Text(t, _)) => {
                    let more = str_chars(t.as_str());
                    let ghost c0 = chars@;
                    let mut k: usize = 0;
                    while k < more.len()
                        invariant
                            k <= more@.len(),
                            chars@ =~= c0 + more@.take(k as int),
                        decreases more.len() - k,
                    {
                        chars.push(more[k]);
                        k = k + 1;
                    }
                    assert(more@.take(more@.len() as int) =~= more@);
                },
                Some(CborRead::Integer(v, _)) => {
                    if v < 0 || v > 0xffff_ffff_ffff_ffffi128 {
                        proof {
                            lemma_str_verr(data, start, (i + 1) as nat, n as nat, ModelError::InvalidModelBinary);
                        }
                        return Err(ModelError::InvalidModelBinary);
                    }
                },
                _ => {
                    proof {
                        lemma_str_verr(data, start, (i + 1) as nat, n as nat, ModelError::InvalidModelBinary);
                    }
                    return Err(ModelError::InvalidModelBinary);
                },
            }
            i = i + 1;
        }
        Ok(JsonValue::String(chars_to_string(chars.as_slice())))
    }

    fn bin_chunks(&mut self, n: u64) -> (res: Result<JsonValue, ModelError>)
        requires
            old(self).pos <= old(self).data@.len(),
        ensures
            final(self).keeps(old(self)),
            ({
                let d = mv_bin(old(self).data@, old(self).pos as int, n as nat);
                match res {
                    Ok(v) => d matches VDec::Done(bs, p, _) && json_agrees(v.jv(), JsonDesc::Object(bytes_desc(bs))) && final(self).pos == p,
                    Err(e2) => verr_ok(d, e2),
                }
            }),
    {
        let ghost data = self.data@;
        let ghost start = self.pos as int;
        let mut bytes: Vec<u8> = Vec::new();
        let mut i: u64 = 0;
        while i < n
            invariant
                self.data@ == data,
                old(self).data@ == data,
                start == old(self).pos,
                start <= self.pos <= data.len(),
                i <= n,
                mv_bin(data, start, i as nat) == VDec::Done(bytes@, self.pos as int, false),
            decreases n - i,
        {
            match self.skip_id() {
                Ok(()) => {},
                Err(e) => {
                    proof {
                        lemma_bin_verr(data, start, (i + 1) as nat, n as nat, e);
                    }
                    return Err(e);
                },
            }
            let mut p = self.pos;
            proof {
                lemma_read_b1vu56_pos(data, p as int);
            }
            match read_b1vu56(self.data, &mut p) {
                None => {
                    proof {
                        lemma_bin_verr(data, start, (i + 1) as nat, n as nat, ModelError::InvalidModelBinary);
                    }
                    return Err(ModelError::InvalidModelBinary);
                },
                Some((deleted, span)) => {
                    self.pos = p;
                    if deleted != 1 {
                        if span > (self.data.len() - self.pos) as u64 {
                            proof {
                                lemma_bin_verr(data, start, (i + 1) as nat, n as nat, ModelError::InvalidModelBinary);
                            }
                            return Err(ModelError::InvalidModelBinary);
                        }
                        let len = span as usize;
                        let base = self.pos;
                        let src = self.data;
                        let dlen = src.len();
                        let ghost b0 = bytes@;
                        let mut k: usize = 0;
                        while k < len
                            invariant
                                k <= len,
                                dlen == src@.len(),
                                base + len <= dlen,
                                src@ == data,
                                bytes@ =~= b0 + data.subrange(base as int, base + k),
                            decreases len - k,
                        {
                            bytes.push(src[base + k]);
                            k = k + 1;
                        }
                        self.pos = base + len;
                    }
                },
            }
            i = i + 1;
        }
        let mut out: Vec<(String, JsonValue)> = Vec::new();
        let mut k: usize = 0;
        while k < bytes.len()
            invariant
                k <= bytes@.len(),
                out@.len() == k,
                forall|q: int| 0 <= q < k ==> (#[trigger] out@[q]).0@ == decimal(q as nat) && out@[q].1 == JsonValue::Number(JsonNumber::PosInt(bytes@[q] as u64)),
            decreases bytes.len() - k,
        {
            let mut key = String::new();
            push_decimal(&mut key, k as u64);
            proof {
                assert(key@ =~= decimal(k as nat));
            }
            out.push((key, JsonValue::Number(JsonNumber::PosInt(bytes[k] as u64))));
            k = k + 1;
        }
        let res = JsonValue::Object(out);
        proof {
            let ev = res.jv()->Object_0;
            let dv = bytes_desc(bytes@);
            assert(ev.len() == dv.len());
            assert forall|q: int| 0 <= q < dv.len() implies (#[trigger] ev[q]).0 == dv[q].0 && json_agrees(ev[q].1, dv[q].1) by {
                assert(ev[q] == (out@[q].0@, out@[q].1.jv()));
            }
        }
        Ok(res)
    }

    fn arr(&mut self, n: u64, Ghost(fuel): Ghost<nat>) -> (res: Result<JsonValue, ModelError>)
        requires
            old(self).pos <= old(self).data@.len(),
            fuel > old(self).data@.len() - old(self).pos,
        ensures
            final(self).keeps(old(self)),
            ({
                let d = mv_arr(old(self).data@, old(self).pos as int, fuel, n as nat);
                match res {
                    Ok(v) => d matches VDec::Done(ds, p, _) && json_agrees(v.jv(), JsonDesc::Array(ds)) && final(self).pos == p,
                    Err(e2) => verr_ok(d, e2),
                }
            }),
        decreases fuel, 2nat, n,
    {
        let ghost data = self.data@;
        let ghost start = self.pos as int;
        let mut out: Vec<JsonValue> = Vec::new();
        let ghost mut ds: Seq<JsonDesc> = Seq::empty();
        let ghost mut flag = false;
        let mut i: u64 = 0;
        while i < n
            invariant
                self.data@ == data,
                old(self).data@ == data,
                start == old(self).pos,
                start <= self.pos <= data.len(),
                fuel > data.len() - start,
                i <= n,
                mv_arr(data, start, fuel, i as nat) == VDec::Done(ds, self.pos as int, flag),
                items_agree(items_jv(out@), ds),
            decreases n - i,
        {
            match self.skip_id() {
                Ok(()) => {},
                Err(e) => {
                    proof {
                        lemma_arr_verr(data, start, fuel, (i + 1) as nat, n as nat, e);
                    }
                    return Err(e);
                },
            }
            let mut p = self.pos;
            proof {
                lemma_read_b1vu56_pos(data, p as int);
            }
            match read_b1vu56(self.data, &mut p) {
                None => {
                    proof {
                        lemma_arr_verr(data, start, fuel, (i + 1) as nat, n as nat, ModelError::InvalidModelBinary);
                    }
                    return Err(ModelError::InvalidModelBinary);
                },
                Some((deleted, span)) => {
                    self.pos = p;
                    if deleted != 1 {
                        let ghost dn = mv_nodes(data, self.pos as int, fuel, span as nat);
                        match self.nodes(span, Ghost(fuel)) {
                            Ok(vs) => {
                                let ghost o0 = out@;
                                let ghost vv = items_jv(vs@);
                                let mut vs = vs;
                                out.append(&mut vs);
                                proof {
                                    assert(items_jv(out@) =~= items_jv(o0) + vv);
                                    ds = ds + dn->Done_0;
                                    flag = flag || dn->Done_2;
                                }
                            },
                            Err(e) => {
                                proof {
                                    lemma_arr_verr(data, start, fuel, (i + 1) as nat, n as nat, e);
                                }
                                return Err(e);
                            },
                        }
                    }
                },
            }
            i = i + 1;
        }
        let res = JsonValue::Array(out);
        proof {
            assert(res.jv()->Array_0 =~= items_jv(out@));
        }
        Ok(res)
    }

    fn nodes(&mut self, n: u64, Ghost(fuel): Ghost<nat>) -> (res: Result<Vec<JsonValue>, ModelError>)
        requires
            old(self).pos <= old(self).data@.len(),
            fuel > old(self).data@.len() - old(self).pos,
        ensures
            final(self).keeps(old(self)),
            ({
                let d = mv_nodes(old(self).data@, old(self).pos as int, fuel, n as nat);
                match res {
                    Ok(vs) => d matches VDec::Done(ds, p, _) && items_agree(items_jv(vs@), ds) && final(self).pos == p,
                    Err(e2) => verr_ok(d, e2),
                }
            }),
        decreases fuel, 1nat, n,
    {
        let ghost data = self.data@;
        let ghost start = self.pos as int;
        let mut out: Vec<JsonValue> = Vec::new();
        let ghost mut ds: Seq<JsonDesc> = Seq::empty();
        let ghost mut flag = false;
        let mut i: u64 = 0;
        while i < n
            invariant
                self.data@ == data,
                old(self).data@ == data,
                start == old(self).pos,
                start <= self.pos <= data.len(),
                fuel > data.len() - start,
                i <= n,
                mv_nodes(data, start, fuel, i as nat) == VDec::Done(ds, self.pos as int, flag),
                items_agree(items_jv(out@), ds),
            decreases n - i,
        {
            let ghost dn = mv_node(data, self.pos as int, fuel);
            match self.node(Ghost(fuel)) {
                Ok(v) => {
                    let ghost o0 = out@;
                    let ghost vj = v.jv();
                    out.push(v);
                    proof {
                        assert(items_jv(out@) =~= items_jv(o0).push(vj));
                        ds = ds.push(dn->Done_0);
                        flag = flag || dn->Done_2;
                    }
                },
                Err(e) => {
                    proof {
                        lemma_nodes_verr(data, start, fuel, (i + 1) as nat, n as nat, e);
                    }
                    return Err(e);
                },
            }
            i = i + 1;
        }
        Ok(out)
    }

    fn root(&mut self) -> (res: Result<JsonValue, ModelError>)
        requires
            old(self).pos <= old(self).data@.len(),
        ensures
            final(self).keeps(old(self)),
            ({
                let d = mv_root(old(self).data@, old(self).pos as int);
                match res {
                    Ok(v) => d matches VDec::Done(dv, p, _) && json_agrees(v.jv(), dv) && final(self).pos == p,
                    Err(e2) => verr_ok(d, e2),
                }
            }),
    {
        if self.pos >= self.data.len() {
            return Err(ModelError::InvalidModelBinary);
        }
        if self.data[self.pos] == 0 {
            self.pos = self.pos + 1;
            return Ok(JsonValue::Null);
        }
        self.node(Ghost((self.data@.len() + 1) as nat))
    }
}

/// What a decoded view owes its description: on success, a JSON value that
/// agrees with the described view; on failure, the described failure (the
/// refusal of a value left open cannot arise: see `lemma_view_settled`).
pub open spec fn view_result_ok(data: Seq<u8>, res: Result<JsonValue, ModelError>) -> bool {
    match spec_model_view(data) {
        VDec::Done(d, _, o) => match res {
            Ok(v) => json_agrees(v.jv(), d),
            Err(e) => o && e == ModelError::InvalidModelBinary,
        },
        VDec::Fail(e, o) => match res {
            Err(e2) => e2 == e || (o && e2 == ModelError::InvalidModelBinary),
            Ok(_) => false,
        },
    }
}

/// Decodes the JSON view of a model binary (see `spec_model_view`).
pub fn decode_model_view(data: &[u8]) -> (res: Result<JsonValue, ModelError>)
    ensures
        view_result_ok(data@, res),
        match spec_model_view(data@) {
            VDec::Done(d, _, _) => res matches Ok(v) && json_agrees(v.jv(), d),
            VDec::Fail(e, _) => res == Err::<JsonValue, ModelError>(e),
        },
{
    proof {
        lemma_view_settled(data@);
    }
    if data.len() == 0 {
        return Err(ModelError::InvalidModelBinary);
    }
    if data[0] & 0x80 != 0 {
        let mut p: usize = 1;
        proof {
            lemma_read_vu57_pos(data@, 1);
        }
        if read_vu57(data, &mut p).is_none() {
            return Err(ModelError::InvalidModelBinary);
        }
        let mut reader = ViewReader { data, pos: p };
        let v = match reader.root() {
            Ok(v) => v,
            Err(e) => {
                return Err(e);
            },
        };
        if reader.pos != data.len() {
            return Err(ModelError::InvalidModelBinary);
        }
        return Ok(v);
    }
    if data.len() < 4 {
        return Err(ModelError::InvalidClockTable);
    }
    let offset = ((data[0] as u32) << 24) | ((data[1] as u32) << 16) | ((data[2] as u32) << 8) | (data[3] as u32);
    assert(offset == be_u32(data@));
    if offset as u64 > (usize::MAX - 4) as u64 {
        return Err(ModelError::InvalidClockTable);
    }
    let end: usize = 4 + offset as usize;
    if end > data.len() {
        return Err(ModelError::InvalidClockTable);
    }
    let clock = vstd::slice::slice_subrange(data, end, data.len());
    let mut cp: usize = 0;
    proof {
        lemma_read_vu57_pos(clock@, 0);
    }
    let n = match read_vu57(clock, &mut cp) {
        Some(n) => n,
        None => {
            return Err(ModelError::InvalidModelBinary);
        },
    };
    if n == 0 {
        return Err(ModelError::InvalidClockTable);
    }
    let ghost p0 = cp as int;
    let mut i: u64 = 0;
    assert(mv_skip_pairs(clock@, p0, 0) == Ok::<int, ModelError>(p0));
    while i < n
        invariant
            i <= n,
            n != 0,
            cp <= clock@.len(),
            data@.len() >= 4,
            data@[0] & 0x80u8 == 0,
            end as int == 4 + be_u32(data@),
            end <= usize::MAX,
            end <= data@.len(),
            clock@ == data@.subrange(end as int, data@.len() as int),
            spec_read_vu57(clock@, 0) == (Some(n), p0),
            mv_skip_pairs(clock@, p0, i as nat) == Ok::<int, ModelError>(cp as int),
        decreases n - i,
    {
        proof {
            lemma_read_vu57_pos(clock@, cp as int);
        }
        if read_vu57(clock, &mut cp).is_none() {
            proof {
                lemma_skip_pairs_err(clock@, p0, (i + 1) as nat, n as nat);
            }
            return Err(ModelError::InvalidModelBinary);
        }
        proof {
            lemma_read_vu57_pos(clock@, cp as int);
        }
        if read_vu57(clock, &mut cp).is_none() {
            proof {
                lemma_skip_pairs_err(clock@, p0, (i + 1) as nat, n as nat);
            }
            return Err(ModelError::InvalidModelBinary);
        }
        i = i + 1;
    }
    let tree = vstd::slice::slice_subrange(data, 4, end);
    let mut reader = ViewReader { data: tree, pos: 0 };
    let v = match reader.root() {
        Ok(v) => v,
        Err(e) => {
            return Err(e);
        },
    };
    if reader.pos != tree.len() {
        return Err(ModelError::InvalidModelBinary);
    }
    Ok(v)
}

proof fn lemma_vclean_node(data: Seq<u8>, pos: int, fuel: nat)
    ensures
        !vdec_flag(mv_node(data, pos, fuel)),
    decreases fuel, 0nat, 0nat,
{
    if fuel > 0 {
        if let Ok(p1) = mv_skip_id(data, pos) {
            if 0 <= p1 < data.len() {
                lemma_vclean_body(data, p1 + 1, (fuel - 1) as nat, data[p1]);
            }
        }
    }
}

proof fn lemma_vclean_body(data: Seq<u8>, pos: int, fuel: nat, oct: u8)
    ensures
        !vdec_flag(mv_body(data, pos, fuel, oct)),
    decreases fuel, 3nat, 0nat,
{
    let major = oct >> 5u8;
    let minor = oct & 0x1fu8;
    if major == 1 {
        lemma_vclean_node(data, pos, fuel);
    } else if 2 <= major <= 6 {
        if let Ok((n, p)) = mv_len(data, pos, minor) {
            if major == 2 {
                lemma_vclean_obj(data, p, fuel, n as nat);
            } else if major == 3 {
                lemma_vclean_vec(data, p, fuel, n as nat);
            } else if major == 4 {
                lemma_vclean_str(data, p, n as nat);
            } else if major == 5 {
                lemma_vclean_bin(data, p, n as nat);
            } else {
                lemma_vclean_arr(data, p, fuel, n as nat);
            }
        }
    }
}

proof fn lemma_vclean_obj(data: Seq<u8>, pos: int, fuel: nat, k: nat)
    ensures
        !vdec_flag(mv_obj(data, pos, fuel, k)),
    decreases fuel, 1nat, k,
{
    if k > 0 {
        lemma_vclean_obj(data, pos, fuel, (k - 1) as nat);
        if let VDec::Done(es, p1, o1) = mv_obj(data, pos, fuel, (k - 1) as nat) {
            if let Some((CborHead::Text(key), p2)) = sd_cbor(data, p1) {
                lemma_vclean_node(data, p2, fuel);
            }
        }
    }
}

proof fn lemma_vclean_vec(data: Seq<u8>, pos: int, fuel: nat, k: nat)
    ensures
        !vdec_flag(mv_vec(data, pos, fuel, k)),
    decreases fuel, 1nat, k,
{
    if k > 0 {
        lemma_vclean_vec(data, pos, fuel, (k - 1) as nat);
        if let VDec::Done(items, p1, o1) = mv_vec(data, pos, fuel, (k - 1) as nat) {
            lemma_vclean_node(data, p1, fuel);
        }
    }
}

proof fn lemma_vclean_str(data: Seq<u8>, pos: int, k: nat)
    ensures
        !vdec_flag(mv_str(data, pos, k)),
    decreases k,
{
    if k > 0 {
        lemma_vclean_str(data, pos, (k - 1) as nat);
    }
}

proof fn lemma_vclean_bin(data: Seq<u8>, pos: int, k: nat)
    ensures
        !vdec_flag(mv_bin(data, pos, k)),
    decreases k,
{
    if k > 0 {
        lemma_vclean_bin(data, pos, (k - 1) as nat);
    }
}

proof fn lemma_vclean_arr(data: Seq<u8>, pos: int, fuel: nat, k: nat)
    ensures
        !vdec_flag(mv_arr(data, pos, fuel, k)),
    decreases fuel, 2nat, k,
{
    if k > 0 {
        lemma_vclean_arr(data, pos, fuel, (k - 1) as nat);
        if let VDec::Done(items, p1, o1) = mv_arr(data, pos, fuel, (k - 1) as nat) {
            if let Ok(p2) = mv_skip_id(data, p1) {
                if let (Some((deleted, span)), p3) = spec_read_b1vu56(data, p2) {
                    lemma_vclean_nodes(data, p3, fuel, span as nat);
                }
            }
        }
    }
}

proof fn lemma_vclean_nodes(data: Seq<u8>, pos: int, fuel: nat, n: nat)
    ensures
        !vdec_flag(mv_nodes(data, pos, fuel, n)),
    decreases fuel, 1nat, n,
{
    if n > 0 {
        lemma_vclean_nodes(data, pos, fuel, (n - 1) as nat);
        if let VDec::Done(vs, p1, o1) = mv_nodes(data, pos, fuel, (n - 1) as nat) {
            lemma_vclean_node(data, p1, fuel);
        }
    }
}

/// Reading the view of a model binary never leaves a value open: the mark
/// of the outcome is always unset, so `view_result_ok` pins the result down.
pub proof fn lemma_view_settled(data: Seq<u8>)
    ensures
        !vdec_flag(spec_model_view(data)),
{
    if data.len() > 0 && data[0] & 0x80u8 != 0 {
        if let (Some(_), p) = spec_read_vu57(data, 1) {
            if 0 <= p < data.len() && data[p] != 0 {
                lemma_vclean_node(data, p, (data.len() + 1) as nat);
            }
        }
    } else if data.len() >= 4 {
        let end = 4 + be_u32(data);
        if end <= usize::MAX && end <= data.len() {
            let tree = data.subrange(4, end);
            if 0 < tree.len() && tree[0] != 0 {
                lemma_vclean_node(tree, 0, (tree.len() + 1) as nat);
            }
        }
    }
}


/// Law (string views): reading `k2` chunks of a string node gives the text
/// of its first `k1` chunks followed by the text of the chunks after them:
/// each chunk's text is appended after the ones before it, in chunk order,
/// and nothing read before is lost.
pub proof fn lemma_str_view_split(data: Seq<u8>, pos: int, k1: nat, k2: nat)
    requires
        k1 <= k2,
    ensures
        mv_str(data, pos, k2) matches VDec::Done(t, p, _) ==> (mv_str(data, pos, k1) matches VDec::Done(t1, p1, _)
            && mv_str(data, p1, (k2 - k1) as nat) matches VDec::Done(u, q, _) && t == t1 + u && p == q),
    decreases k2,
{
    if k2 > k1 {
        lemma_str_view_split(data, pos, k1, (k2 - 1) as nat);
        if let VDec::Done(t, p, _) = mv_str(data, pos, k2) {
            let t1 = mv_str(data, pos, k1)->Done_0;
            let p1 = mv_str(data, pos, k1)->Done_1;
            let u0 = mv_str(data, p1, (k2 - 1 - k1) as nat)->Done_0;
            assert((k2 - k1 - 1) as nat == (k2 - 1 - k1) as nat);
            if let Some((CborHead::Text(s), _)) = sd_cbor(data, mv_skip_id(data, mv_str(data, pos, (k2 - 1) as nat)->Done_1)->Ok_0) {
                assert(t1 + (u0 + s) =~= t1 + u0 + s);
            }
        }
    } else {
        if let VDec::Done(t, p, _) = mv_str(data, pos, k2) {
            assert(t + Seq::<char>::empty() =~= t);
        }
    }
}

/// Law (string views): one chunk of a string node reads as its text when
/// it holds text, and as nothing when it is a deleted run.
pub proof fn lemma_str_view_one(data: Seq<u8>, pos: int)
    ensures
        match mv_skip_id(data, pos) {
            Ok(p2) => match sd_cbor(data, p2) {
                Some((CborHead::Text(s), p3)) => mv_str(data, pos, 1) == VDec::Done(s, p3, false),
                Some((CborHead::Integer(i), p3)) => 0 <= i <= u64::MAX ==> mv_str(data, pos, 1) == VDec::Done(
                    Seq::<char>::empty(),
                    p3,
                    false,
                ),
                _ => true,
            },
            Err(_) => true,
        },
{
    assert(mv_str(data, pos, 0) == VDec::Done(Seq::<char>::empty(), pos, false));
    if let Ok(p2) = mv_skip_id(data, pos) {
        if let Some((CborHead::Text(s), p3)) = sd_cbor(data, p2) {
            assert(Seq::<char>::empty() + s =~= s);
        }
    }
}

} // verus!
