//! The sidecar binary codec: a model carried as the CBOR form of its JSON
//! view beside a metadata stream that holds, node by node, identifiers,
//! kinds and chunk runs.

use vstd::prelude::*;
use crate::cbor::{cbor_item, cbor_json, cbor_read_one, cbor_to_json, spec_int_to_json, CborHead, CborRead, CborValue};
use crate::json::{JsonValue, JsonView};
use crate::model_runtime::decode::{chunk_atoms, chunk_slot, deleted_atoms, put_node};
use crate::cbor_enc::{be_bytes, push_be, write_cbor_json, write_cbor_text, write_cbor_uint};
use crate::crdt_binary::{
    be_u32, read_b1vu56, read_vu57, spec_read_b1vu56, vu57_bytes, write_b1vu56, write_vu57, spec_read_clock_entries, spec_read_vu57,
    LogicalClockBase,
};
use crate::model::{spec_model_view, lemma_view_settled, view_result_ok, ModelError, VDec};
use crate::model_runtime::RuntimeModel;
use crate::model_runtime::decode::{lemma_graph_settled, spec_decode_graph, store_put, GraphDec};
use crate::model_runtime::encode::{entries_max, logical_binary, table_bytes, vec_lookup, ModelBin};
use crate::model_runtime::types::{
    arr_atoms_view, bin_atoms_view, obj_entries_view, str_atoms_view, ArrAtom, BinAtom, ConCell, ConCellV, NodeV, RuntimeNode,
    StrAtom, store_view,
};
use crate::patch::Timestamp;
use crate::text::{chars_to_string, str_chars};

verus! {

/// Failures of the sidecar codec.
#[derive(Debug, Clone, Copy, PartialEq, Eq, Structural)]
pub enum SidecarBinaryCodecError {
    InvalidPayload,
    Model(ModelError),
}

/// Reading a sidecar identifier at `pos`: one byte holding a session index
/// below 8 and a time difference below 16, or a `b1vu56` with flag 1 (the
/// index) then a `vu57` (the difference). Index 0 is the system session;
/// index `i` is entry `i - 1` of the table, whose time the difference is
/// taken from.
pub open spec fn sidecar_id(meta: Seq<u8>, pos: int, table: Seq<LogicalClockBase>) -> Option<(Timestamp, int)> {
    if pos < 0 || pos >= meta.len() {
        None
    } else {
        let first = meta[pos];
        let parts: Option<(u64, u64, int)> = if first <= 0x7f {
            Some(((first >> 4u8) as u64, (first & 0x0fu8) as u64, pos + 1))
        } else {
            let (r, p1) = spec_read_b1vu56(meta, pos);
            match r {
                Some((flag, x)) => if flag != 1 {
                    None
                } else {
                    let (y, p2) = spec_read_vu57(meta, p1);
                    match y {
                        Some(y) => Some((x, y, p2)),
                        None => None,
                    }
                },
                None => None,
            }
        };
        match parts {
            None => None,
            Some((idx, diff, p)) => if idx == 0 {
                Some((Timestamp { sid: 0, time: diff }, p))
            } else if idx - 1 >= table.len() {
                None
            } else if table[idx - 1].time < diff {
                None
            } else {
                Some((Timestamp { sid: table[idx - 1].sid, time: (table[idx - 1].time - diff) as u64 }, p))
            },
        }
    }
}

/// Reads a sidecar identifier (see `sidecar_id`).
fn decode_sidecar_id(meta: &[u8], pos: &mut usize, table: &Vec<LogicalClockBase>) -> (res: Result<Timestamp, SidecarBinaryCodecError>)
    requires
        *old(pos) <= meta@.len(),
    ensures
        *old(pos) <= *final(pos) <= meta@.len(),
        match sidecar_id(meta@, *old(pos) as int, table@) {
            Some((id, p)) => res == Ok::<Timestamp, SidecarBinaryCodecError>(id) && *final(pos) == p,
            None => res == Err::<Timestamp, SidecarBinaryCodecError>(SidecarBinaryCodecError::InvalidPayload),
        },
{
    if *pos >= meta.len() {
        return Err(SidecarBinaryCodecError::InvalidPayload);
    }
    let first = meta[*pos];
    let idx: u64;
    let diff: u64;
    if first <= 0x7f {
        *pos = *pos + 1;
        idx = (first >> 4) as u64;
        diff = (first & 0x0f) as u64;
    } else {
        proof {
            crate::crdt_binary::lemma_read_b1vu56_pos(meta@, *pos as int);
        }
        match read_b1vu56(meta, pos) {
            Some((flag, x)) => {
                if flag != 1 {
                    return Err(SidecarBinaryCodecError::InvalidPayload);
                }
                proof {
                    crate::crdt_binary::lemma_read_vu57_pos(meta@, *pos as int);
                }
                match read_vu57(meta, pos) {
                    Some(y) => {
                        idx = x;
                        diff = y;
                    },
                    None => {
                        return Err(SidecarBinaryCodecError::InvalidPayload);
                    },
                }
            },
            None => {
                return Err(SidecarBinaryCodecError::InvalidPayload);
            },
        }
    }
    if idx == 0 {
        return Ok(Timestamp { sid: 0, time: diff });
    }
    if idx - 1 >= table.len() as u64 {
        return Err(SidecarBinaryCodecError::InvalidPayload);
    }
    let base = table[(idx - 1) as usize];
    if base.time < diff {
        return Err(SidecarBinaryCodecError::InvalidPayload);
    }
    Ok(Timestamp { sid: base.sid, time: base.time - diff })
}

/// Reading the length that a node octet's low five bits announce: the bits
/// themselves below 24, else the one, two or four big-endian bytes that
/// follow for 24, 25 and 26.
pub open spec fn sidecar_len(meta: Seq<u8>, pos: int, minor: u8) -> Option<(u64, int)> {
    if minor <= 23 {
        Some((minor as u64, pos))
    } else if minor == 24 {
        if 0 <= pos && pos + 1 <= meta.len() {
            Some((meta[pos] as u64, pos + 1))
        } else {
            None
        }
    } else if minor == 25 {
        if 0 <= pos && pos + 2 <= meta.len() {
            Some(((meta[pos] * 256 + meta[pos + 1]) as u64, pos + 2))
        } else {
            None
        }
    } else if minor == 26 {
        if 0 <= pos && pos + 4 <= meta.len() {
            Some((
                (((meta[pos] * 256 + meta[pos + 1]) * 256 + meta[pos + 2]) * 256 + meta[pos + 3]) as u64,
                pos + 4,
            ))
        } else {
            None
        }
    } else {
        None
    }
}

/// Reads the length a node octet announces (see `sidecar_len`).
fn read_len(meta: &[u8], pos: &mut usize, minor: u8) -> (res: Result<u64, SidecarBinaryCodecError>)
    requires
        *old(pos) <= meta@.len(),
    ensures
        *old(pos) <= *final(pos) <= meta@.len(),
        match sidecar_len(meta@, *old(pos) as int, minor) {
            Some((n, p)) => res == Ok::<u64, SidecarBinaryCodecError>(n) && *final(pos) == p,
            None => res == Err::<u64, SidecarBinaryCodecError>(SidecarBinaryCodecError::InvalidPayload),
        },
{
    let p = *pos;
    if minor <= 23 {
        Ok(minor as u64)
    } else if minor == 24 {
        if meta.len() - p < 1 {
            return Err(SidecarBinaryCodecError::InvalidPayload);
        }
        *pos = p + 1;
        Ok(meta[p] as u64)
    } else if minor == 25 {
        if meta.len() - p < 2 {
            return Err(SidecarBinaryCodecError::InvalidPayload);
        }
        *pos = p + 2;
        Ok(meta[p] as u64 * 256 + meta[p + 1] as u64)
    } else if minor == 26 {
        if meta.len() - p < 4 {
            return Err(SidecarBinaryCodecError::InvalidPayload);
        }
        *pos = p + 4;
        Ok(((meta[p] as u64 * 256 + meta[p + 1] as u64) * 256 + meta[p + 2] as u64) * 256 + meta[p + 3] as u64)
    } else {
        Err(SidecarBinaryCodecError::InvalidPayload)
    }
}

/// Whether `a` comes before `b` in code point order (the order of `String`),
/// comparing from position `i` on, the positions before it being equal.
pub open spec fn chars_before_from(a: Seq<char>, b: Seq<char>, i: int) -> bool
    decreases a.len() - i,
{
    if i < 0 || i >= b.len() {
        false
    } else if i >= a.len() {
        true
    } else if a[i] != b[i] {
        (a[i] as u32) < (b[i] as u32)
    } else {
        chars_before_from(a, b, i + 1)
    }
}

/// Whether key `a` sorts before key `b`.
fn key_before(a: &Vec<char>, b: &Vec<char>) -> (res: bool)
    ensures
        res == chars_before_from(a@, b@, 0),
{
    let mut i: usize = 0;
    while i < a.len() && i < b.len() && a[i] == b[i]
        invariant
            i <= a@.len(),
            i <= b@.len(),
            chars_before_from(a@, b@, 0) == chars_before_from(a@, b@, i as int),
        decreases a.len() - i,
    {
        i = i + 1;
    }
    if i >= b.len() {
        false
    } else if i >= a.len() {
        true
    } else {
        (a[i] as u32) < (b[i] as u32)
    }
}

/// The position at which key `i` of `ks` goes among the sorted positions
/// `r`, scanning down from `at`: past every key it sorts before.
pub open spec fn ins_pos(ks: Seq<Seq<char>>, r: Seq<usize>, i: int, at: int) -> int
    decreases at,
{
    if at <= 0 {
        0
    } else if chars_before_from(ks[i], ks[r[at - 1] as int], 0) {
        ins_pos(ks, r, i, at - 1)
    } else {
        at
    }
}

/// The first `n` positions of `ks` in ascending key order, equal keys in
/// their order (an insertion sort).
pub open spec fn sort_pos(ks: Seq<Seq<char>>, n: nat) -> Seq<usize>
    decreases n,
{
    if n == 0 {
        Seq::empty()
    } else {
        let r = sort_pos(ks, (n - 1) as nat);
        r.insert(ins_pos(ks, r, n - 1, r.len() as int), (n - 1) as usize)
    }
}

/// The keys held by a vector of keys.
pub open spec fn keys_view(keys: Seq<Vec<char>>) -> Seq<Seq<char>> {
    keys.map_values(|k: Vec<char>| k@)
}

/// The positions of `keys` in ascending key order (equal keys keep their
/// order).
fn sorted_positions(keys: &Vec<Vec<char>>) -> (res: Vec<usize>)
    ensures
        res@ == sort_pos(keys_view(keys@), keys@.len()),
        res@.len() == keys@.len(),
        forall|k: int| 0 <= k < res@.len() ==> res@[k] < keys@.len(),
{
    let ghost ks = keys_view(keys@);
    let mut out: Vec<usize> = Vec::new();
    let mut i: usize = 0;
    while i < keys.len()
        invariant
            i <= keys@.len(),
            ks == keys_view(keys@),
            out@ == sort_pos(ks, i as nat),
            out@.len() == i,
            forall|k: int| 0 <= k < out@.len() ==> out@[k] < keys@.len(),
        decreases keys.len() - i,
    {
        let mut at: usize = out.len();
        while at > 0 && key_before(&keys[i], &keys[out[at - 1]])
            invariant
                at <= out@.len(),
                i < keys@.len(),
                ks == keys_view(keys@),
                forall|k: int| 0 <= k < out@.len() ==> out@[k] < keys@.len(),
                ins_pos(ks, out@, i as int, out@.len() as int) == ins_pos(ks, out@, i as int, at as int),
            decreases at,
        {
            at = at - 1;
        }
        proof {
            if at > 0 {
                assert(!chars_before_from(ks[i as int], ks[out@[at - 1] as int], 0));
            }
            assert(ins_pos(ks, out@, i as int, at as int) == at as int);
        }
        let ghost before = out@;
        out.insert(at, i);
        proof {
            assert forall|k: int| 0 <= k < out@.len() implies out@[k] < keys@.len() by {
                if k < at as int {
                    assert(out@[k] == before[k]);
                } else if k > at as int {
                    assert(out@[k] == before[k - 1]);
                }
            }
        }
        i = i + 1;
    }
    out
}

/// Whether two keys are the same.
fn same_key(a: &Vec<char>, b: &Vec<char>) -> (res: bool)
    ensures
        res == (a@ == b@),
{
    if a.len() != b.len() {
        return false;
    }
    let mut i: usize = 0;
    while i < a.len()
        invariant
            i <= a@.len(),
            a@.len() == b@.len(),
            forall|k: int| 0 <= k < i ==> a@[k] == b@[k],
        decreases a.len() - i,
    {
        if a[i] != b[i] {
            return false;
        }
        i = i + 1;
    }
    assert(a@ =~= b@);
    true
}

/// What node decoding reads of a CBOR view: its JSON value, and the text,
/// map entries, array items or bytes it holds, where it is of that kind.
pub struct SideView {
    pub json: Option<JsonView>,
    pub text: Option<Seq<char>>,
    pub entries: Option<Seq<(CborValue, CborValue)>>,
    pub items: Option<Seq<CborValue>>,
    pub bytes: Option<Seq<u8>>,
}

/// What node decoding reads of a CBOR value.
pub open spec fn value_view(v: CborValue) -> SideView {
    SideView {
        json: cbor_json(v, 257),
        text: match v {
            CborValue::Text(t) => Some(t@),
            _ => None,
        },
        entries: match v {
            CborValue::Entries(m) => Some(m@),
            _ => None,
        },
        items: match v {
            CborValue::Array(a) => Some(a@),
            _ => None,
        },
        bytes: match v {
            CborValue::Bytes(b) => Some(b@),
            _ => None,
        },
    }
}

/// What node decoding reads of a CBOR item as its head describes it.
pub open spec fn head_view(h: CborHead) -> SideView {
    match h {
        CborHead::Text(t) => SideView { json: Some(JsonView::String(t)), text: Some(t), entries: None, items: None, bytes: None },
        CborHead::Integer(i) => SideView {
            json: match spec_int_to_json(i) {
                Some(n) => Some(JsonView::Number(n)),
                None => None,
            },
            text: None,
            entries: None,
            items: None,
            bytes: None,
        },
        CborHead::Other(v) => value_view(v),
    }
}

/// The outcome of decoding part of the metadata: a value, the node store
/// after it and the position reached; or a refusal.
pub enum ScDec<T> {
    Done(T, Seq<(Timestamp, NodeV)>, int),
    Fail,
}

/// The text keys of map entries, when every key is text.
pub open spec fn text_keys(m: Seq<(CborValue, CborValue)>) -> Option<Seq<Seq<char>>> {
    if forall|i: int| 0 <= i < m.len() ==> (#[trigger] m[i]).0 is Text {
        Some(Seq::new(m.len(), |i: int| m[i].0->Text_0@))
    } else {
        None
    }
}

/// The first position from `j` on whose key is `k` (the end when none is).
pub open spec fn first_key(ks: Seq<Seq<char>>, k: Seq<char>, j: int) -> int
    decreases ks.len() - j,
{
    if j < 0 || j >= ks.len() {
        j
    } else if ks[j] == k {
        j
    } else {
        first_key(ks, k, j + 1)
    }
}

/// The node at `pos` of the metadata, read together with its view `v`
/// (see `sc_body`), its subtree going at most `fuel` levels deep.
pub open spec fn sc_node(v: SideView, meta: Seq<u8>, pos: int, t: Seq<LogicalClockBase>, s: Seq<(Timestamp, NodeV)>, fuel: nat) -> ScDec<Timestamp>
    decreases fuel, 0nat, 0nat,
{
    if fuel == 0 {
        ScDec::Fail
    } else {
        match sidecar_id(meta, pos, t) {
            None => ScDec::Fail,
            Some((id, p1)) => if p1 < 0 || p1 >= meta.len() {
                ScDec::Fail
            } else {
                match sidecar_len(meta, p1 + 1, meta[p1] & 0x1fu8) {
                    None => ScDec::Fail,
                    Some((len, p2)) => sc_body(v, meta, p2, t, s, (fuel - 1) as nat, id, meta[p1] >> 5u8, len),
                }
            },
        }
    }
}

/// The rest of node `id` of kind `major` with length `len`: a constant (the
/// view's JSON value for length 0, else a reference read next); a register
/// over the next node, read with the same view; an object of `len` entries
/// whose keys are the view's map keys in ascending order, each child read
/// with the value of the first map entry under its key; a vector of the
/// view's `len` array items, slots of session 0 left out; or `len` chunks of
/// a string, binary or array node, whose live runs take the view's
/// characters, bytes or items in order. The node is then put into the store.
pub open spec fn sc_body(
    v: SideView,
    meta: Seq<u8>,
    pos: int,
    t: Seq<LogicalClockBase>,
    s: Seq<(Timestamp, NodeV)>,
    fuel: nat,
    id: Timestamp,
    major: u8,
    len: u64,
) -> ScDec<Timestamp>
    decreases fuel, 4nat, 0nat,
{
    if major == 0 {
        if len == 0 {
            match v.json {
                Some(j) => ScDec::Done(id, put_node(s, id, NodeV::Con(ConCellV::Json(j))), pos),
                None => ScDec::Fail,
            }
        } else {
            match sidecar_id(meta, pos, t) {
                Some((r, p)) => ScDec::Done(id, put_node(s, id, NodeV::Con(ConCellV::Ref(r))), p),
                None => ScDec::Fail,
            }
        }
    } else if major == 1 {
        match sc_node(v, meta, pos, t, s, fuel) {
            ScDec::Done(c, s2, p2) => ScDec::Done(id, put_node(s2, id, NodeV::Val(c)), p2),
            ScDec::Fail => ScDec::Fail,
        }
    } else if major == 2 {
        match v.entries {
            Some(m) => if m.len() != len {
                ScDec::Fail
            } else {
                match text_keys(m) {
                    None => ScDec::Fail,
                    Some(ks) => match sc_obj(m, ks, sort_pos(ks, ks.len()), meta, pos, t, s, fuel, ks.len()) {
                        ScDec::Done(es, s2, p2) => ScDec::Done(id, put_node(s2, id, NodeV::Obj(es)), p2),
                        ScDec::Fail => ScDec::Fail,
                    },
                }
            },
            None => ScDec::Fail,
        }
    } else if major == 3 {
        match v.items {
            Some(a) => if a.len() != len {
                ScDec::Fail
            } else {
                match sc_vec(a, meta, pos, t, s, fuel, a.len()) {
                    ScDec::Done(es, s2, p2) => ScDec::Done(id, put_node(s2, id, NodeV::Vec(es)), p2),
                    ScDec::Fail => ScDec::Fail,
                }
            },
            None => ScDec::Fail,
        }
    } else if major == 4 {
        match v.text {
            Some(cs) => match sc_str(cs, meta, pos, t, len as nat) {
                Some((atoms, _, p2)) => ScDec::Done(id, put_node(s, id, NodeV::Str(atoms)), p2),
                None => ScDec::Fail,
            },
            None => ScDec::Fail,
        }
    } else if major == 5 {
        match v.bytes {
            Some(bs) => match sc_bin(bs, meta, pos, t, len as nat) {
                Some((atoms, _, p2)) => ScDec::Done(id, put_node(s, id, NodeV::Bin(atoms)), p2),
                None => ScDec::Fail,
            },
            None => ScDec::Fail,
        }
    } else if major == 6 {
        match v.items {
            Some(a) => match sc_arr(a, meta, pos, t, s, fuel, len as nat) {
                ScDec::Done((atoms, _), s2, p2) => ScDec::Done(id, put_node(s2, id, NodeV::Arr(atoms)), p2),
                ScDec::Fail => ScDec::Fail,
            },
            None => ScDec::Fail,
        }
    } else {
        ScDec::Fail
    }
}

/// The first `n` object entries, in the order `sp` gives the keys `ks` of
/// map `m`.
pub open spec fn sc_obj(
    m: Seq<(CborValue, CborValue)>,
    ks: Seq<Seq<char>>,
    sp: Seq<usize>,
    meta: Seq<u8>,
    pos: int,
    t: Seq<LogicalClockBase>,
    s: Seq<(Timestamp, NodeV)>,
    fuel: nat,
    n: nat,
) -> ScDec<Seq<(Seq<char>, Timestamp)>>
    decreases fuel, 1nat, n,
{
    if n == 0 {
        ScDec::Done(Seq::empty(), s, pos)
    } else {
        match sc_obj(m, ks, sp, meta, pos, t, s, fuel, (n - 1) as nat) {
            ScDec::Fail => ScDec::Fail,
            ScDec::Done(es, s1, p1) => {
                let k = ks[sp[n - 1] as int];
                let j = first_key(ks, k, 0);
                match sc_node(value_view(m[j].1), meta, p1, t, s1, fuel) {
                    ScDec::Done(c, s2, p2) => ScDec::Done(es.push((k, c)), s2, p2),
                    ScDec::Fail => ScDec::Fail,
                }
            },
        }
    }
}

/// The first `n` vector slots, one per array item; children of session 0
/// leave their slot empty.
pub open spec fn sc_vec(
    a: Seq<CborValue>,
    meta: Seq<u8>,
    pos: int,
    t: Seq<LogicalClockBase>,
    s: Seq<(Timestamp, NodeV)>,
    fuel: nat,
    n: nat,
) -> ScDec<Seq<(u64, Timestamp)>>
    decreases fuel, 1nat, n,
{
    if n == 0 {
        ScDec::Done(Seq::empty(), s, pos)
    } else {
        match sc_vec(a, meta, pos, t, s, fuel, (n - 1) as nat) {
            ScDec::Fail => ScDec::Fail,
            ScDec::Done(es, s1, p1) => match sc_node(value_view(a[n - 1]), meta, p1, t, s1, fuel) {
                ScDec::Done(c, s2, p2) => ScDec::Done(
                    if c.sid != 0 {
                        es.push((((n - 1) as nat) as u64, c))
                    } else {
                        es
                    },
                    s2,
                    p2,
                ),
                ScDec::Fail => ScDec::Fail,
            },
        }
    }
}

/// A chunk header: its identifier and the deleted flag and span after it.
pub open spec fn sc_chunk(meta: Seq<u8>, pos: int, t: Seq<LogicalClockBase>) -> Option<(Timestamp, u8, u64, int)> {
    match sidecar_id(meta, pos, t) {
        None => None,
        Some((id, p)) => match spec_read_b1vu56(meta, p) {
            (Some((deleted, span)), p2) => Some((id, deleted, span, p2)),
            (None, _) => None,
        },
    }
}

/// The first `k` string chunks: the slots, how many of the view's
/// characters they took, and the position after them.
pub open spec fn sc_str(cs: Seq<char>, meta: Seq<u8>, pos: int, t: Seq<LogicalClockBase>, k: nat) -> Option<(Seq<(Timestamp, Option<char>)>, int, int)>
    decreases k,
{
    if k == 0 {
        Some((Seq::empty(), 0, pos))
    } else {
        match sc_str(cs, meta, pos, t, (k - 1) as nat) {
            None => None,
            Some((atoms, ci, p1)) => match sc_chunk(meta, p1, t) {
                None => None,
                Some((id, deleted, span, p2)) => if deleted == 1 {
                    Some((atoms + deleted_atoms::<char>(id, span as nat), ci, p2))
                } else if ci + span > cs.len() {
                    None
                } else {
                    Some((atoms + chunk_atoms(id, cs.subrange(ci, ci + span)), ci + span, p2))
                },
            },
        }
    }
}

/// The first `k` binary chunks: the slots, how many of the view's bytes
/// they took, and the position after them.
pub open spec fn sc_bin(bs: Seq<u8>, meta: Seq<u8>, pos: int, t: Seq<LogicalClockBase>, k: nat) -> Option<(Seq<(Timestamp, Option<u8>)>, int, int)>
    decreases k,
{
    if k == 0 {
        Some((Seq::empty(), 0, pos))
    } else {
        match sc_bin(bs, meta, pos, t, (k - 1) as nat) {
            None => None,
            Some((atoms, bi, p1)) => match sc_chunk(meta, p1, t) {
                None => None,
                Some((id, deleted, span, p2)) => if deleted == 1 {
                    Some((atoms + deleted_atoms::<u8>(id, span as nat), bi, p2))
                } else if bi + span > bs.len() {
                    None
                } else {
                    Some((atoms + chunk_atoms(id, bs.subrange(bi, bi + span)), bi + span, p2))
                },
            },
        }
    }
}

/// The first `k` array chunks: the slots and how many of the view's items
/// they took.
pub open spec fn sc_arr(
    a: Seq<CborValue>,
    meta: Seq<u8>,
    pos: int,
    t: Seq<LogicalClockBase>,
    s: Seq<(Timestamp, NodeV)>,
    fuel: nat,
    k: nat,
) -> ScDec<(Seq<(Timestamp, Option<Timestamp>)>, int)>
    decreases fuel, 2nat, k,
{
    if k == 0 {
        ScDec::Done((Seq::empty(), 0), s, pos)
    } else {
        match sc_arr(a, meta, pos, t, s, fuel, (k - 1) as nat) {
            ScDec::Fail => ScDec::Fail,
            ScDec::Done((atoms, vi), s1, p1) => match sc_chunk(meta, p1, t) {
                None => ScDec::Fail,
                Some((id, deleted, span, p2)) => if deleted == 1 {
                    ScDec::Done((atoms + deleted_atoms::<Timestamp>(id, span as nat), vi), s1, p2)
                } else {
                    match sc_arr_items(a, vi, id, meta, p2, t, s1, fuel, span as nat) {
                        ScDec::Done(items, s2, p3) => ScDec::Done((atoms + items, vi + span), s2, p3),
                        ScDec::Fail => ScDec::Fail,
                    }
                },
            },
        }
    }
}

/// The first `n` slots of a live array chunk with identifier `id`, whose
/// children are read with the view's items from `vi` on.
pub open spec fn sc_arr_items(
    a: Seq<CborValue>,
    vi: int,
    id: Timestamp,
    meta: Seq<u8>,
    pos: int,
    t: Seq<LogicalClockBase>,
    s: Seq<(Timestamp, NodeV)>,
    fuel: nat,
    n: nat,
) -> ScDec<Seq<(Timestamp, Option<Timestamp>)>>
    decreases fuel, 1nat, n,
{
    if n == 0 {
        ScDec::Done(Seq::empty(), s, pos)
    } else {
        match sc_arr_items(a, vi, id, meta, pos, t, s, fuel, (n - 1) as nat) {
            ScDec::Fail => ScDec::Fail,
            ScDec::Done(items, s1, p1) => if vi < 0 || vi + n - 1 >= a.len() {
                ScDec::Fail
            } else {
                match sc_node(value_view(a[vi + n - 1]), meta, p1, t, s1, fuel) {
                    ScDec::Done(c, s2, p2) => ScDec::Done(items.push((chunk_slot(id, n - 1), Some(c))), s2, p2),
                    ScDec::Fail => ScDec::Fail,
                }
            },
        }
    }
}


/// A refusal among the first `k` string chunks refuses the first `n >= k`.
proof fn lemma_str_fail(cs: Seq<char>, meta: Seq<u8>, pos: int, t: Seq<LogicalClockBase>, k: nat, n: nat)
    requires
        k <= n,
        sc_str(cs, meta, pos, t, k) is None,
    ensures
        sc_str(cs, meta, pos, t, n) is None,
    decreases n,
{
    if n > k {
        lemma_str_fail(cs, meta, pos, t, k, (n - 1) as nat);
    }
}

/// A refusal among the first `k` binary chunks refuses the first `n >= k`.
proof fn lemma_bin_fail(bs: Seq<u8>, meta: Seq<u8>, pos: int, t: Seq<LogicalClockBase>, k: nat, n: nat)
    requires
        k <= n,
        sc_bin(bs, meta, pos, t, k) is None,
    ensures
        sc_bin(bs, meta, pos, t, n) is None,
    decreases n,
{
    if n > k {
        lemma_bin_fail(bs, meta, pos, t, k, (n - 1) as nat);
    }
}

/// A refusal among the first `k` array chunks refuses the first `n >= k`.
proof fn lemma_arr_fail(a: Seq<CborValue>, meta: Seq<u8>, pos: int, t: Seq<LogicalClockBase>, s: Seq<(Timestamp, NodeV)>, fuel: nat, k: nat, n: nat)
    requires
        k <= n,
        sc_arr(a, meta, pos, t, s, fuel, k) is Fail,
    ensures
        sc_arr(a, meta, pos, t, s, fuel, n) is Fail,
    decreases n,
{
    if n > k {
        lemma_arr_fail(a, meta, pos, t, s, fuel, k, (n - 1) as nat);
    }
}

/// A refusal among the first `k` items of a live array chunk refuses the
/// first `n >= k`.
proof fn lemma_items_fail(a: Seq<CborValue>, vi: int, id: Timestamp, meta: Seq<u8>, pos: int, t: Seq<LogicalClockBase>, s: Seq<(Timestamp, NodeV)>, fuel: nat, k: nat, n: nat)
    requires
        k <= n,
        sc_arr_items(a, vi, id, meta, pos, t, s, fuel, k) is Fail,
    ensures
        sc_arr_items(a, vi, id, meta, pos, t, s, fuel, n) is Fail,
    decreases n,
{
    if n > k {
        lemma_items_fail(a, vi, id, meta, pos, t, s, fuel, k, (n - 1) as nat);
    }
}

/// A refusal among the first `k` object entries refuses the first `n >= k`.
proof fn lemma_obj_fail(m: Seq<(CborValue, CborValue)>, ks: Seq<Seq<char>>, sp: Seq<usize>, meta: Seq<u8>, pos: int, t: Seq<LogicalClockBase>, s: Seq<(Timestamp, NodeV)>, fuel: nat, k: nat, n: nat)
    requires
        k <= n,
        sc_obj(m, ks, sp, meta, pos, t, s, fuel, k) is Fail,
    ensures
        sc_obj(m, ks, sp, meta, pos, t, s, fuel, n) is Fail,
    decreases n,
{
    if n > k {
        lemma_obj_fail(m, ks, sp, meta, pos, t, s, fuel, k, (n - 1) as nat);
    }
}

/// A refusal among the first `k` vector slots refuses the first `n >= k`.
proof fn lemma_vec_fail(a: Seq<CborValue>, meta: Seq<u8>, pos: int, t: Seq<LogicalClockBase>, s: Seq<(Timestamp, NodeV)>, fuel: nat, k: nat, n: nat)
    requires
        k <= n,
        sc_vec(a, meta, pos, t, s, fuel, k) is Fail,
    ensures
        sc_vec(a, meta, pos, t, s, fuel, n) is Fail,
    decreases n,
{
    if n > k {
        lemma_vec_fail(a, meta, pos, t, s, fuel, k, (n - 1) as nat);
    }
}

/// Decodes the node at `*pos` of the metadata together with `view`, the
/// CBOR form of its JSON view, putting it and its subtree into `nodes` (see
/// `sc_node`; a node decoded again under an identifier already there
/// replaces it).
fn decode_node_from_sidecar(
    view: &CborValue,
    meta: &[u8],
    pos: &mut usize,
    table: &Vec<LogicalClockBase>,
    nodes: &mut Vec<(Timestamp, RuntimeNode)>,
    Ghost(fuel): Ghost<nat>,
) -> (res: Result<Timestamp, SidecarBinaryCodecError>)
    requires
        *old(pos) <= meta@.len(),
        fuel > meta@.len() - *old(pos),
    ensures
        *old(pos) <= *final(pos) <= meta@.len(),
        match sc_node(value_view(*view), meta@, *old(pos) as int, table@, store_view(old(nodes)@), fuel) {
            ScDec::Done(id, st, p) => res == Ok::<Timestamp, SidecarBinaryCodecError>(id)
                && store_view(final(nodes)@) == st && *final(pos) == p,
            ScDec::Fail => res == Err::<Timestamp, SidecarBinaryCodecError>(SidecarBinaryCodecError::InvalidPayload),
        },
    decreases fuel, 0nat,
{
    let ghost sv = value_view(*view);
    let ghost s0 = store_view(nodes@);
    let ghost p0: int = *pos as int;
    let id = match decode_sidecar_id(meta, pos, table) {
        Ok(id) => id,
        Err(e) => {
            return Err(e);
        },
    };
    if *pos >= meta.len() {
        return Err(SidecarBinaryCodecError::InvalidPayload);
    }
    let octet = meta[*pos];
    *pos = *pos + 1;
    let major = octet >> 5;
    let len = match read_len(meta, pos, octet & 0x1f) {
        Ok(n) => n,
        Err(e) => {
            return Err(e);
        },
    };
    let ghost f1: nat = (fuel - 1) as nat;
    let ghost pb: int = *pos as int;
    assert(sc_node(sv, meta@, p0, table@, s0, fuel) == sc_body(sv, meta@, pb, table@, s0, f1, id, major, len));
    let node = if major == 0 {
        if len == 0 {
            match cbor_to_json(view, 257) {
                Some(j) => RuntimeNode::Con(ConCell::Json(j)),
                None => {
                    return Err(SidecarBinaryCodecError::InvalidPayload);
                },
            }
        } else {
            match decode_sidecar_id(meta, pos, table) {
                Ok(r) => RuntimeNode::Con(ConCell::Ref(r)),
                Err(e) => {
                    return Err(e);
                },
            }
        }
    } else if major == 1 {
        match decode_node_from_sidecar(view, meta, pos, table, nodes, Ghost(f1)) {
            Ok(child) => RuntimeNode::Val(child),
            Err(e) => {
                return Err(e);
            },
        }
    } else if major == 2 {
        let m = match view {
            CborValue::Entries(m) => m,
            _ => {
                return Err(SidecarBinaryCodecError::InvalidPayload);
            },
        };
        if m.len() as u64 != len {
            return Err(SidecarBinaryCodecError::InvalidPayload);
        }
        match read_obj(m, meta, pos, table, nodes, Ghost(f1)) {
            Ok(es) => RuntimeNode::Obj(es),
            Err(e) => {
                return Err(e);
            },
        }
    } else if major == 3 {
        let a = match view {
            CborValue::Array(a) => a,
            _ => {
                return Err(SidecarBinaryCodecError::InvalidPayload);
            },
        };
        if a.len() as u64 != len {
            return Err(SidecarBinaryCodecError::InvalidPayload);
        }
        match read_vec(a, meta, pos, table, nodes, Ghost(f1)) {
            Ok(es) => RuntimeNode::Vec(es),
            Err(e) => {
                return Err(e);
            },
        }
    } else if major == 4 {
        let s = match view {
            CborValue::Text(s) => s,
            _ => {
                return Err(SidecarBinaryCodecError::InvalidPayload);
            },
        };
        let chars = str_chars(s.as_str());
        match read_str(&chars, meta, pos, table, len) {
            Ok(atoms) => RuntimeNode::Str(atoms),
            Err(e) => {
                return Err(e);
            },
        }
    } else if major == 5 {
        let bytes = match view {
            CborValue::Bytes(b) => b,
            _ => {
                return Err(SidecarBinaryCodecError::InvalidPayload);
            },
        };
        match read_bin(bytes, meta, pos, table, len) {
            Ok(atoms) => RuntimeNode::Bin(atoms),
            Err(e) => {
                return Err(e);
            },
        }
    } else if major == 6 {
        let a = match view {
            CborValue::Array(a) => a,
            _ => {
                return Err(SidecarBinaryCodecError::InvalidPayload);
            },
        };
        match read_arr(a, meta, pos, table, nodes, len, Ghost(f1)) {
            Ok(atoms) => RuntimeNode::Arr(atoms),
            Err(e) => {
                return Err(e);
            },
        }
    } else {
        return Err(SidecarBinaryCodecError::InvalidPayload);
    };
    store_put(nodes, id, node);
    Ok(id)
}

/// The entries of an object node whose view is the map `m` (see `sc_obj`).
fn read_obj(
    m: &Vec<(CborValue, CborValue)>,
    meta: &[u8],
    pos: &mut usize,
    table: &Vec<LogicalClockBase>,
    nodes: &mut Vec<(Timestamp, RuntimeNode)>,
    Ghost(fuel): Ghost<nat>,
) -> (res: Result<Vec<(String, Timestamp)>, SidecarBinaryCodecError>)
    requires
        *old(pos) <= meta@.len(),
        fuel > meta@.len() - *old(pos),
    ensures
        *old(pos) <= *final(pos) <= meta@.len(),
        match text_keys(m@) {
            None => res == Err::<Vec<(String, Timestamp)>, SidecarBinaryCodecError>(SidecarBinaryCodecError::InvalidPayload),
            Some(ks) => match sc_obj(m@, ks, sort_pos(ks, ks.len()), meta@, *old(pos) as int, table@, store_view(old(nodes)@), fuel, ks.len()) {
                ScDec::Done(es, st, p) => res matches Ok(v) && obj_entries_view(v@) == es
                    && store_view(final(nodes)@) == st && *final(pos) == p,
                ScDec::Fail => res == Err::<Vec<(String, Timestamp)>, SidecarBinaryCodecError>(SidecarBinaryCodecError::InvalidPayload),
            },
        },
    decreases fuel, 1nat,
{
    let ghost s0 = store_view(nodes@);
    let ghost p0: int = *pos as int;
    let mut keys: Vec<Vec<char>> = Vec::new();
    let mut k: usize = 0;
    while k < m.len()
        invariant
            k <= m@.len(),
            keys@.len() == k,
            p0 == *old(pos) as int,
            s0 == store_view(old(nodes)@),
            p0 <= *pos <= meta@.len(),
            *pos as int == p0,
            forall|i: int| 0 <= i < k ==> (#[trigger] m@[i]).0 is Text && keys@[i]@ == m@[i].0->Text_0@,
        decreases m.len() - k,
    {
        match &m[k].0 {
            CborValue::Text(s) => {
                keys.push(str_chars(s.as_str()));
            },
            _ => {
                proof {
                    assert(!((m@[k as int]).0 is Text));
                }
                return Err(SidecarBinaryCodecError::InvalidPayload);
            },
        }
        k = k + 1;
    }
    let ghost ks = keys_view(keys@);
    proof {
        assert(ks =~= Seq::new(m@.len(), |i: int| m@[i].0->Text_0@));
        assert(text_keys(m@) == Some(ks));
    }
    let order = sorted_positions(&keys);
    let mut entries: Vec<(String, Timestamp)> = Vec::new();
    assert(obj_entries_view(entries@) =~= Seq::<(Seq<char>, Timestamp)>::empty());
    let mut q: usize = 0;
    while q < order.len()
        invariant
            q <= order@.len(),
            order@ == sort_pos(ks, ks.len()),
            text_keys(m@) == Some(ks),
            order@.len() == keys@.len(),
            keys@.len() == m@.len(),
            ks.len() == keys@.len(),
            ks == keys_view(keys@),
            forall|i: int| 0 <= i < order@.len() ==> order@[i] < keys@.len(),
            p0 == *old(pos) as int,
            s0 == store_view(old(nodes)@),
            p0 <= *pos <= meta@.len(),
            fuel > meta@.len() - *pos,
            sc_obj(m@, ks, order@, meta@, p0, table@, s0, fuel, q as nat)
                == ScDec::Done(obj_entries_view(entries@), store_view(nodes@), *pos as int),
        decreases order.len() - q,
    {
        let want = order[q];
        let mut j: usize = 0;
        while j < want && !same_key(&keys[j], &keys[want])
            invariant
                j <= want,
                want < keys@.len(),
                ks == keys_view(keys@),
                first_key(ks, ks[want as int], 0) == first_key(ks, ks[want as int], j as int),
            decreases want - j,
        {
            j = j + 1;
        }
        proof {
            assert(first_key(ks, ks[want as int], j as int) == j as int);
        }
        let key = chars_to_string(keys[want].as_slice());
        let ghost e0 = obj_entries_view(entries@);
        let ghost pk: int = *pos as int;
        let ghost sk = store_view(nodes@);
        proof {
            assert(j as int == first_key(ks, ks[order@[q as int] as int], 0));
        }
        let child = match decode_node_from_sidecar(&m[j].1, meta, pos, table, nodes, Ghost(fuel)) {
            Ok(c) => c,
            Err(e) => {
                proof {
                    assert(sc_node(value_view(m@[j as int].1), meta@, pk, table@, sk, fuel) is Fail);
                    assert(sc_obj(m@, ks, order@, meta@, p0, table@, s0, fuel, (q + 1) as nat) is Fail);
                    lemma_obj_fail(m@, ks, order@, meta@, p0, table@, s0, fuel, (q + 1) as nat, ks.len());
                }
                return Err(e);
            },
        };
        entries.push((key, child));
        proof {
            assert(obj_entries_view(entries@) =~= e0.push((ks[want as int], child)));
        }
        q = q + 1;
    }
    Ok(entries)
}

/// The slots of a vector node whose view is the array `a` (see `sc_vec`).
fn read_vec(
    a: &Vec<CborValue>,
    meta: &[u8],
    pos: &mut usize,
    table: &Vec<LogicalClockBase>,
    nodes: &mut Vec<(Timestamp, RuntimeNode)>,
    Ghost(fuel): Ghost<nat>,
) -> (res: Result<Vec<(u64, Timestamp)>, SidecarBinaryCodecError>)
    requires
        *old(pos) <= meta@.len(),
        fuel > meta@.len() - *old(pos),
    ensures
        *old(pos) <= *final(pos) <= meta@.len(),
        match sc_vec(a@, meta@, *old(pos) as int, table@, store_view(old(nodes)@), fuel, a@.len()) {
            ScDec::Done(es, st, p) => res matches Ok(v) && v@ == es && store_view(final(nodes)@) == st && *final(pos) == p,
            ScDec::Fail => res == Err::<Vec<(u64, Timestamp)>, SidecarBinaryCodecError>(SidecarBinaryCodecError::InvalidPayload),
        },
    decreases fuel, 1nat,
{
    let ghost s0 = store_view(nodes@);
    let ghost p0: int = *pos as int;
    let mut elements: Vec<(u64, Timestamp)> = Vec::new();
    let mut k: usize = 0;
    while k < a.len()
        invariant
            k <= a@.len(),
            p0 == *old(pos) as int,
            s0 == store_view(old(nodes)@),
            p0 <= *pos <= meta@.len(),
            fuel > meta@.len() - *pos,
            sc_vec(a@, meta@, p0, table@, s0, fuel, k as nat) == ScDec::Done(elements@, store_view(nodes@), *pos as int),
        decreases a.len() - k,
    {
        let ghost pk: int = *pos as int;
        let ghost sk = store_view(nodes@);
        let child = match decode_node_from_sidecar(&a[k], meta, pos, table, nodes, Ghost(fuel)) {
            Ok(c) => c,
            Err(e) => {
                proof {
                    assert(sc_node(value_view(a@[k as int]), meta@, pk, table@, sk, fuel) is Fail);
                    assert(sc_vec(a@, meta@, p0, table@, s0, fuel, (k + 1) as nat) is Fail);
                    lemma_vec_fail(a@, meta@, p0, table@, s0, fuel, (k + 1) as nat, a@.len());
                }
                return Err(e);
            },
        };
        if child.sid != 0 {
            elements.push((k as u64, child));
        }
        k = k + 1;
    }
    Ok(elements)
}

/// Reads a chunk header (see `sc_chunk`).
fn read_chunk(meta: &[u8], pos: &mut usize, table: &Vec<LogicalClockBase>) -> (res: Result<(Timestamp, u8, u64), SidecarBinaryCodecError>)
    requires
        *old(pos) <= meta@.len(),
    ensures
        *old(pos) <= *final(pos) <= meta@.len(),
        match sc_chunk(meta@, *old(pos) as int, table@) {
            Some((id, d, span, p)) => res == Ok::<(Timestamp, u8, u64), SidecarBinaryCodecError>((id, d, span)) && *final(pos) == p,
            None => res == Err::<(Timestamp, u8, u64), SidecarBinaryCodecError>(SidecarBinaryCodecError::InvalidPayload),
        },
{
    let chunk = match decode_sidecar_id(meta, pos, table) {
        Ok(c) => c,
        Err(e) => {
            return Err(e);
        },
    };
    proof {
        crate::crdt_binary::lemma_read_b1vu56_pos(meta@, *pos as int);
    }
    match read_b1vu56(meta, pos) {
        Some((deleted, span)) => Ok((chunk, deleted, span)),
        None => Err(SidecarBinaryCodecError::InvalidPayload),
    }
}

/// The slots of a string node of `len` chunks whose view holds `chars`
/// (see `sc_str`).
fn read_str(chars: &Vec<char>, meta: &[u8], pos: &mut usize, table: &Vec<LogicalClockBase>, len: u64) -> (res: Result<Vec<StrAtom>, SidecarBinaryCodecError>)
    requires
        *old(pos) <= meta@.len(),
    ensures
        *old(pos) <= *final(pos) <= meta@.len(),
        match sc_str(chars@, meta@, *old(pos) as int, table@, len as nat) {
            Some((atoms, _, p)) => res matches Ok(v) && str_atoms_view(v@) == atoms && *final(pos) == p,
            None => res == Err::<Vec<StrAtom>, SidecarBinaryCodecError>(SidecarBinaryCodecError::InvalidPayload),
        },
{
    let ghost p0: int = *pos as int;
    let mut ci: usize = 0;
    let mut atoms: Vec<StrAtom> = Vec::new();
    assert(str_atoms_view(atoms@) =~= Seq::<(Timestamp, Option<char>)>::empty());
    let mut k: u64 = 0;
    while k < len
        invariant
            k <= len,
            ci <= chars@.len(),
            p0 == *old(pos) as int,
            p0 <= *pos <= meta@.len(),
            sc_str(chars@, meta@, p0, table@, k as nat) == Some((str_atoms_view(atoms@), ci as int, *pos as int)),
        decreases len - k,
    {
        let (chunk, deleted, span) = match read_chunk(meta, pos, table) {
            Ok(c) => c,
            Err(e) => {
                proof {
                    lemma_str_fail(chars@, meta@, p0, table@, (k + 1) as nat, len as nat);
                }
                return Err(e);
            },
        };
        let ghost a0 = str_atoms_view(atoms@);
        let ghost ci0: int = ci as int;
        let ghost pc: int = *pos as int;
        let ghost next = sc_str(chars@, meta@, p0, table@, (k + 1) as nat);
        assert(next == if deleted == 1 {
            Some((a0 + deleted_atoms::<char>(chunk, span as nat), ci0, pc))
        } else if ci0 + span > chars@.len() {
            None
        } else {
            Some((a0 + chunk_atoms(chunk, chars@.subrange(ci0, ci0 + span)), ci0 + span, pc))
        });
        let mut i: u64 = 0;
        while i < span
            invariant
                i <= span,
                k < len,
                0 <= ci0 <= ci <= chars@.len(),
                p0 == *old(pos) as int,
                    *pos as int == pc,
                p0 <= pc <= meta@.len(),
                deleted != 1 && ci0 + span > chars@.len() ==> next is None,
                next == sc_str(chars@, meta@, p0, table@, (k + 1) as nat),
                deleted == 1 ==> ci == ci0 && str_atoms_view(atoms@) =~= a0 + deleted_atoms::<char>(chunk, i as nat),
                deleted != 1 ==> ci == ci0 + i && str_atoms_view(atoms@) =~= a0 + chunk_atoms(chunk, chars@.subrange(ci0, ci0 + i)),
            decreases span - i,
        {
            let slot = Timestamp { sid: chunk.sid, time: chunk.time.wrapping_add(i) };
            let ghost v0 = str_atoms_view(atoms@);
            if deleted == 1 {
                atoms.push(StrAtom { slot, ch: None });
                proof {
                    assert(deleted_atoms::<char>(chunk, (i + 1) as nat) =~= deleted_atoms::<char>(chunk, i as nat).push((chunk_slot(chunk, i as int), None)));
                    assert(str_atoms_view(atoms@) =~= v0.push((chunk_slot(chunk, i as int), None)));
                }
            } else {
                if ci >= chars.len() {
                    proof {
                        lemma_str_fail(chars@, meta@, p0, table@, (k + 1) as nat, len as nat);
                    }
                    return Err(SidecarBinaryCodecError::InvalidPayload);
                }
                atoms.push(StrAtom { slot, ch: Some(chars[ci]) });
                proof {
                    assert(chars@.subrange(ci0, ci0 + i + 1) =~= chars@.subrange(ci0, ci0 + i).push(chars@[ci as int]));
                    assert(chunk_atoms(chunk, chars@.subrange(ci0, ci0 + i + 1)) =~= chunk_atoms(chunk, chars@.subrange(ci0, ci0 + i)).push((chunk_slot(chunk, i as int), Some(chars@[ci as int]))));
                    assert(str_atoms_view(atoms@) =~= v0.push((chunk_slot(chunk, i as int), Some(chars@[ci as int]))));
                }
                ci = ci + 1;
            }
            i = i + 1;
        }
        k = k + 1;
    }
    Ok(atoms)
}

/// The slots of a binary node of `len` chunks whose view holds `bytes`
/// (see `sc_bin`).
fn read_bin(bytes: &Vec<u8>, meta: &[u8], pos: &mut usize, table: &Vec<LogicalClockBase>, len: u64) -> (res: Result<Vec<BinAtom>, SidecarBinaryCodecError>)
    requires
        *old(pos) <= meta@.len(),
    ensures
        *old(pos) <= *final(pos) <= meta@.len(),
        match sc_bin(bytes@, meta@, *old(pos) as int, table@, len as nat) {
            Some((atoms, _, p)) => res matches Ok(v) && bin_atoms_view(v@) == atoms && *final(pos) == p,
            None => res == Err::<Vec<BinAtom>, SidecarBinaryCodecError>(SidecarBinaryCodecError::InvalidPayload),
        },
{
    let ghost p0: int = *pos as int;
    let mut bi: usize = 0;
    let mut atoms: Vec<BinAtom> = Vec::new();
    assert(bin_atoms_view(atoms@) =~= Seq::<(Timestamp, Option<u8>)>::empty());
    let mut k: u64 = 0;
    while k < len
        invariant
            k <= len,
            bi <= bytes@.len(),
            p0 == *old(pos) as int,
            p0 <= *pos <= meta@.len(),
            sc_bin(bytes@, meta@, p0, table@, k as nat) == Some((bin_atoms_view(atoms@), bi as int, *pos as int)),
        decreases len - k,
    {
        let (chunk, deleted, span) = match read_chunk(meta, pos, table) {
            Ok(c) => c,
            Err(e) => {
                proof {
                    lemma_bin_fail(bytes@, meta@, p0, table@, (k + 1) as nat, len as nat);
                }
                return Err(e);
            },
        };
        let ghost a0 = bin_atoms_view(atoms@);
        let ghost bi0: int = bi as int;
        let ghost pc: int = *pos as int;
        let ghost next = sc_bin(bytes@, meta@, p0, table@, (k + 1) as nat);
        assert(next == if deleted == 1 {
            Some((a0 + deleted_atoms::<u8>(chunk, span as nat), bi0, pc))
        } else if bi0 + span > bytes@.len() {
            None
        } else {
            Some((a0 + chunk_atoms(chunk, bytes@.subrange(bi0, bi0 + span)), bi0 + span, pc))
        });
        let mut i: u64 = 0;
        while i < span
            invariant
                i <= span,
                k < len,
                0 <= bi0 <= bi <= bytes@.len(),
                p0 == *old(pos) as int,
                    *pos as int == pc,
                p0 <= pc <= meta@.len(),
                deleted != 1 && bi0 + span > bytes@.len() ==> next is None,
                next == sc_bin(bytes@, meta@, p0, table@, (k + 1) as nat),
                deleted == 1 ==> bi == bi0 && bin_atoms_view(atoms@) =~= a0 + deleted_atoms::<u8>(chunk, i as nat),
                deleted != 1 ==> bi == bi0 + i && bin_atoms_view(atoms@) =~= a0 + chunk_atoms(chunk, bytes@.subrange(bi0, bi0 + i)),
            decreases span - i,
        {
            let slot = Timestamp { sid: chunk.sid, time: chunk.time.wrapping_add(i) };
            let ghost v0 = bin_atoms_view(atoms@);
            if deleted == 1 {
                atoms.push(BinAtom { slot, byte: None });
                proof {
                    assert(deleted_atoms::<u8>(chunk, (i + 1) as nat) =~= deleted_atoms::<u8>(chunk, i as nat).push((chunk_slot(chunk, i as int), None)));
                    assert(bin_atoms_view(atoms@) =~= v0.push((chunk_slot(chunk, i as int), None)));
                }
            } else {
                if bi >= bytes.len() {
                    proof {
                        lemma_bin_fail(bytes@, meta@, p0, table@, (k + 1) as nat, len as nat);
                    }
                    return Err(SidecarBinaryCodecError::InvalidPayload);
                }
                atoms.push(BinAtom { slot, byte: Some(bytes[bi]) });
                proof {
                    assert(bytes@.subrange(bi0, bi0 + i + 1) =~= bytes@.subrange(bi0, bi0 + i).push(bytes@[bi as int]));
                    assert(chunk_atoms(chunk, bytes@.subrange(bi0, bi0 + i + 1)) =~= chunk_atoms(chunk, bytes@.subrange(bi0, bi0 + i)).push((chunk_slot(chunk, i as int), Some(bytes@[bi as int]))));
                    assert(bin_atoms_view(atoms@) =~= v0.push((chunk_slot(chunk, i as int), Some(bytes@[bi as int]))));
                }
                bi = bi + 1;
            }
            i = i + 1;
        }
        k = k + 1;
    }
    Ok(atoms)
}

/// The slots of an array node of `len` chunks whose view holds the items
/// `a` (see `sc_arr`).
fn read_arr(
    a: &Vec<CborValue>,
    meta: &[u8],
    pos: &mut usize,
    table: &Vec<LogicalClockBase>,
    nodes: &mut Vec<(Timestamp, RuntimeNode)>,
    len: u64,
    Ghost(fuel): Ghost<nat>,
) -> (res: Result<Vec<ArrAtom>, SidecarBinaryCodecError>)
    requires
        *old(pos) <= meta@.len(),
        fuel > meta@.len() - *old(pos),
    ensures
        *old(pos) <= *final(pos) <= meta@.len(),
        match sc_arr(a@, meta@, *old(pos) as int, table@, store_view(old(nodes)@), fuel, len as nat) {
            ScDec::Done((atoms, _), st, p) => res matches Ok(v) && arr_atoms_view(v@) == atoms
                && store_view(final(nodes)@) == st && *final(pos) == p,
            ScDec::Fail => res == Err::<Vec<ArrAtom>, SidecarBinaryCodecError>(SidecarBinaryCodecError::InvalidPayload),
        },
    decreases fuel, 2nat,
{
    let ghost s0 = store_view(nodes@);
    let ghost p0: int = *pos as int;
    let mut vi: usize = 0;
    let mut atoms: Vec<ArrAtom> = Vec::new();
    assert(arr_atoms_view(atoms@) =~= Seq::<(Timestamp, Option<Timestamp>)>::empty());
    let mut k: u64 = 0;
    while k < len
        invariant
            k <= len,
            vi <= a@.len(),
            p0 == *old(pos) as int,
            s0 == store_view(old(nodes)@),
            p0 <= *pos <= meta@.len(),
            fuel > meta@.len() - *pos,
            sc_arr(a@, meta@, p0, table@, s0, fuel, k as nat) == ScDec::Done((arr_atoms_view(atoms@), vi as int), store_view(nodes@), *pos as int),
        decreases len - k,
    {
        let ghost pk: int = *pos as int;
        let (chunk, deleted, span) = match read_chunk(meta, pos, table) {
            Ok(c) => c,
            Err(e) => {
                proof {
                    lemma_arr_fail(a@, meta@, p0, table@, s0, fuel, (k + 1) as nat, len as nat);
                }
                return Err(e);
            },
        };
        let ghost a0 = arr_atoms_view(atoms@);
        let ghost vi0: int = vi as int;
        let ghost s1 = store_view(nodes@);
        let ghost p2: int = *pos as int;
        let mut i: u64 = 0;
        while i < span
            invariant
                i <= span,
                k < len,
                0 <= vi0 <= vi <= a@.len(),
                p0 == *old(pos) as int,
                s0 == store_view(old(nodes)@),
            s0 == store_view(old(nodes)@),
                p0 <= p2 <= *pos <= meta@.len(),
                fuel > meta@.len() - *pos,
                sc_arr(a@, meta@, p0, table@, s0, fuel, k as nat) == ScDec::Done((a0, vi0), s1, pk),
                sc_chunk(meta@, pk, table@) == Some((chunk, deleted, span, p2)),
                deleted == 1 ==> vi == vi0 && arr_atoms_view(atoms@) =~= a0 + deleted_atoms::<Timestamp>(chunk, i as nat)
                    && store_view(nodes@) == s1 && *pos == p2,
                deleted != 1 ==> vi == vi0 + i && (sc_arr_items(a@, vi0, chunk, meta@, p2, table@, s1, fuel, i as nat)
                    matches ScDec::Done(items, s2, p3) && arr_atoms_view(atoms@) =~= a0 + items
                    && store_view(nodes@) == s2 && *pos == p3),
            decreases span - i,
        {
            let slot = Timestamp { sid: chunk.sid, time: chunk.time.wrapping_add(i) };
            let ghost v0 = arr_atoms_view(atoms@);
            if deleted == 1 {
                atoms.push(ArrAtom { slot, value: None });
                proof {
                    assert(deleted_atoms::<Timestamp>(chunk, (i + 1) as nat) =~= deleted_atoms::<Timestamp>(chunk, i as nat).push((chunk_slot(chunk, i as int), None)));
                    assert(arr_atoms_view(atoms@) =~= v0.push((chunk_slot(chunk, i as int), None)));
                }
            } else {
                if vi >= a.len() {
                    proof {
                        lemma_items_fail(a@, vi0, chunk, meta@, p2, table@, s1, fuel, (i + 1) as nat, span as nat);
                        assert(sc_arr(a@, meta@, p0, table@, s0, fuel, (k + 1) as nat) is Fail);
                        lemma_arr_fail(a@, meta@, p0, table@, s0, fuel, (k + 1) as nat, len as nat);
                    }
                    return Err(SidecarBinaryCodecError::InvalidPayload);
                }
                let ghost items0 = sc_arr_items(a@, vi0, chunk, meta@, p2, table@, s1, fuel, i as nat)->Done_0;
                let child = match decode_node_from_sidecar(&a[vi], meta, pos, table, nodes, Ghost(fuel)) {
                    Ok(c) => c,
                    Err(e) => {
                        proof {
                            lemma_items_fail(a@, vi0, chunk, meta@, p2, table@, s1, fuel, (i + 1) as nat, span as nat);
                            assert(sc_arr(a@, meta@, p0, table@, s0, fuel, (k + 1) as nat) is Fail);
                            lemma_arr_fail(a@, meta@, p0, table@, s0, fuel, (k + 1) as nat, len as nat);
                        }
                        return Err(e);
                    },
                };
                vi = vi + 1;
                atoms.push(ArrAtom { slot, value: Some(child) });
                proof {
                    assert(arr_atoms_view(atoms@) =~= v0.push((chunk_slot(chunk, i as int), Some(child))));
                    assert(a0 + items0.push((chunk_slot(chunk, i as int), Some(child))) =~= (a0 + items0).push((chunk_slot(chunk, i as int), Some(child))));
                }
            }
            i = i + 1;
        }
        k = k + 1;
    }
    Ok(atoms)
}

/// The clock table of sidecar metadata: the first four bytes hold, big
/// endian, the length of the node part that follows them; after it come a
/// `vu57` count (never zero) and that many `vu57` session and time pairs.
pub open spec fn sidecar_table(meta: Seq<u8>) -> Option<Seq<LogicalClockBase>> {
    if meta.len() < 4 {
        None
    } else {
        let off = be_u32(meta) as int;
        if 4 + off > meta.len() {
            None
        } else {
            let (n, p) = spec_read_vu57(meta, 4 + off);
            match n {
                Some(n) => if n == 0 {
                    None
                } else {
                    match spec_read_clock_entries(meta, p, n as nat) {
                        Some((t, _)) => Some(t),
                        None => None,
                    }
                },
                None => None,
            }
        }
    }
}

/// What the codec answers for a model whose encoding is `mb`: its bytes, the
/// model error, or an invalid payload where the nodes refer to each other
/// in a cycle.
pub open spec fn sidecar_model_result(mb: ModelBin, res: Result<Vec<u8>, SidecarBinaryCodecError>) -> bool {
    match mb {
        ModelBin::Bytes(b) => res matches Ok(v) && v@ == b,
        ModelBin::Fail(e) => res == Err::<Vec<u8>, SidecarBinaryCodecError>(SidecarBinaryCodecError::Model(e)),
        ModelBin::Stuck => res == Err::<Vec<u8>, SidecarBinaryCodecError>(SidecarBinaryCodecError::InvalidPayload),
    }
}

/// Reads the clock table (see `sidecar_table`).
fn read_sidecar_table(meta: &[u8]) -> (res: Option<Vec<LogicalClockBase>>)
    ensures
        match res {
            Some(t) => sidecar_table(meta@) == Some(t@),
            None => sidecar_table(meta@) is None,
        },
{
    if meta.len() < 4 {
        return None;
    }
    let off = (((meta[0] as u32) << 24) | ((meta[1] as u32) << 16) | ((meta[2] as u32) << 8) | (meta[3] as u32)) as usize;
    if off > meta.len() - 4 {
        return None;
    }
    let mut pos = 4 + off;
    let len = match read_vu57(meta, &mut pos) {
        Some(l) => l,
        None => return None,
    };
    if len == 0 {
        return None;
    }
    let mut table: Vec<LogicalClockBase> = Vec::new();
    let mut k: u64 = 0;
    while k < len
        invariant
            k <= len,
            len > 0,
            sidecar_table(meta@) == match spec_read_clock_entries(meta@, pos as int, (len - k) as nat) {
                Some((rest, _)) => Some(table@ + rest),
                None => None::<Seq<LogicalClockBase>>,
            },
        decreases len - k,
    {
        let sid = match read_vu57(meta, &mut pos) {
            Some(v) => v,
            None => return None,
        };
        let time = match read_vu57(meta, &mut pos) {
            Some(v) => v,
            None => return None,
        };
        let ghost before = table@;
        table.push(LogicalClockBase { sid, time });
        proof {
            let rest_k = (len - k - 1) as nat;
            match spec_read_clock_entries(meta@, pos as int, rest_k) {
                Some((rest, _)) => {
                    assert(before + (seq![LogicalClockBase { sid, time }] + rest) =~= table@ + rest);
                },
                None => {},
            }
        }
        k = k + 1;
    }
    proof {
        assert(table@ + Seq::<LogicalClockBase>::empty() =~= table@);
    }
    Some(table)
}

/// The model a sidecar form describes: its node store, root and clock
/// table. The metadata holds the node part (its length in the first four
/// bytes) and then the clock table (see `sidecar_table`). A node part that
/// is the single byte 0 stands for a model without a root; otherwise the
/// first CBOR item of `view` and the node part are read together from the
/// root on (`sc_node`), and the node part must be used up.
pub open spec fn sidecar_graph(view: Seq<u8>, meta: Seq<u8>) -> Option<(Seq<(Timestamp, NodeV)>, Option<Timestamp>, Seq<LogicalClockBase>)> {
    match sidecar_table(meta) {
        None => None,
        Some(t) => {
            let part = meta.subrange(4, 4 + be_u32(meta) as int);
            if part.len() == 0 {
                None
            } else if part[0] == 0 {
                if part.len() == 1 {
                    Some((Seq::empty(), None, t))
                } else {
                    None
                }
            } else {
                match cbor_item(view) {
                    None => None,
                    Some((h, _)) => match sc_node(head_view(h), part, 0, t, Seq::empty(), (part.len() + 1) as nat) {
                        ScDec::Done(id, st, p) => if p == part.len() {
                            Some((st, Some(id), t))
                        } else {
                            None
                        },
                        ScDec::Fail => None,
                    },
                }
            }
        },
    }
}

/// Rebuilds a model binary from its sidecar form: the CBOR view and the
/// metadata (see `sidecar_graph`); the result is the binary of the model
/// described, or `InvalidPayload` where the form describes none.
#[verifier::rlimit(60)]
#[verifier::spinoff_prover]
pub fn decode_sidecar_to_model_binary(view_binary: &[u8], meta_binary: &[u8]) -> (res: Result<Vec<u8>, SidecarBinaryCodecError>)
    ensures
        meta_binary@.len() < 4 ==> res == Err::<Vec<u8>, SidecarBinaryCodecError>(SidecarBinaryCodecError::InvalidPayload),
        match sidecar_graph(view_binary@, meta_binary@) {
            None => res == Err::<Vec<u8>, SidecarBinaryCodecError>(SidecarBinaryCodecError::InvalidPayload),
            Some((g, root, t)) => sidecar_model_result(logical_binary(g, root, t, Set::empty()), res),
        },
{
    if meta_binary.len() < 4 {
        return Err(SidecarBinaryCodecError::InvalidPayload);
    }
    let table = match read_sidecar_table(meta_binary) {
        Some(t) => t,
        None => {
            return Err(SidecarBinaryCodecError::InvalidPayload);
        },
    };
    let off = (((meta_binary[0] as u32) << 24) | ((meta_binary[1] as u32) << 16) | ((meta_binary[2] as u32) << 8) | (meta_binary[3] as u32)) as usize;
    let part = vstd::slice::slice_subrange(meta_binary, 4, 4 + off);
    if part.len() == 0 {
        return Err(SidecarBinaryCodecError::InvalidPayload);
    }
    let mut nodes: Vec<(Timestamp, RuntimeNode)> = Vec::new();
    let mut pos: usize = 0;
    proof {
        assert(part@ == meta_binary@.subrange(4, 4 + be_u32(meta_binary@) as int));
        assert(store_view(nodes@) =~= Seq::<(Timestamp, NodeV)>::empty());
    }
    let root = if part[0] == 0 {
        pos = 1;
        None
    } else {
        let view = match cbor_read_one(view_binary) {
            Some(CborRead::Text(s, _)) => CborValue::Text(s),
            Some(CborRead::Integer(i, _)) => CborValue::Integer(i),
            Some(CborRead::Other(v, _)) => v,
            None => {
                return Err(SidecarBinaryCodecError::InvalidPayload);
            },
        };
        proof {
            let h = cbor_item(view_binary@)->Some_0.0;
            assert(value_view(view) == head_view(h));
        }
        match decode_node_from_sidecar(&view, part, &mut pos, &table, &mut nodes, Ghost((part.len() + 1) as nat)) {
            Ok(id) => Some(id),
            Err(e) => {
                return Err(e);
            },
        }
    };
    if pos != part.len() {
        return Err(SidecarBinaryCodecError::InvalidPayload);
    }
    let model = RuntimeModel::from_parts(nodes, root, table);
    match model.model_binary_checked() {
        Some(Ok(v)) => Ok(v),
        Some(Err(e)) => Err(SidecarBinaryCodecError::Model(e)),
        None => Err(SidecarBinaryCodecError::InvalidPayload),
    }
}

/// Writes a sidecar identifier (see `sidecar_id`): one byte when the index
/// is below 8 and the difference below 16.
fn write_sidecar_id(out: &mut Vec<u8>, session_index: u64, time_diff: u64) {
    if session_index <= 7 && time_diff <= 15 {
        out.push(((session_index as u8) << 4) | (time_diff as u8));
    } else {
        write_b1vu56(out, 1, session_index);
        write_vu57(out, time_diff);
    }
}

/// Writes identifier `id` relative to the session table `table`: session 0
/// as index 0; else the last entry of its session (one is appended, at the
/// local base time, for a session not yet there), which must not be earlier
/// than `id`.
fn append_id(table: &mut Vec<LogicalClockBase>, local_base: u64, id: Timestamp, out: &mut Vec<u8>) -> (res: Result<(), SidecarBinaryCodecError>)
    ensures
        res is Err ==> res == Err::<(), SidecarBinaryCodecError>(SidecarBinaryCodecError::InvalidPayload),
        old(table)@.len() <= final(table)@.len(),
{
    if id.sid == 0 {
        write_sidecar_id(out, 0, id.time);
        return Ok(());
    }
    let mut k: usize = table.len();
    while k > 0 && table[k - 1].sid != id.sid
        invariant
            k <= table@.len(),
        decreases k,
    {
        k = k - 1;
    }
    let idx: usize = if k == 0 {
        if table.len() == usize::MAX {
            return Err(SidecarBinaryCodecError::InvalidPayload);
        }
        table.push(LogicalClockBase { sid: id.sid, time: local_base });
        table.len()
    } else {
        k
    };
    let base = table[idx - 1].time;
    if base < id.time {
        return Err(SidecarBinaryCodecError::InvalidPayload);
    }
    write_sidecar_id(out, idx as u64, base - id.time);
    Ok(())
}

/// Writes a node's kind and length: the kind in the top three bits, the
/// length in the low five below 24, else in the one, two or four
/// big-endian bytes that follow (the low 32 bits of longer lengths).
fn write_type_len(out: &mut Vec<u8>, major: u8, len: u64)
    requires
        major < 8,
{
    if len < 24 {
        out.push((major << 5) | (len as u8));
    } else if len <= 0xff {
        out.push((major << 5) | 24);
        out.push(len as u8);
    } else if len <= 0xffff {
        out.push((major << 5) | 25);
        push_be(out, len, 2);
    } else {
        out.push((major << 5) | 26);
        push_be(out, len, 4);
    }
}

/// The node stored under `id`.
fn find_node(model: &RuntimeModel, id: Timestamp) -> (res: Option<&RuntimeNode>) {
    let n = model.node_count();
    let mut k: usize = 0;
    while k < n
        invariant
            k <= n,
            n == model.graph().nodes.len(),
        decreases n - k,
    {
        let (kid, node) = model.node_entry(k);
        if kid == id {
            return Some(node);
        }
        k = k + 1;
    }
    None
}

/// The chunks of consecutive slots, `(start, end)` each: a chunk's slots
/// share their session, are all live or all deleted, and follow each other
/// in time.
fn slot_chunks(slots: &Vec<(Timestamp, bool)>) -> (res: Vec<(usize, usize)>)
    ensures
        forall|c: int| #![trigger res@[c]] 0 <= c < res@.len() ==> res@[c].0 < res@[c].1 <= slots@.len(),
{
    let mut out: Vec<(usize, usize)> = Vec::new();
    let mut i: usize = 0;
    while i < slots.len()
        invariant
            i <= slots@.len(),
            forall|c: int| #![trigger out@[c]] 0 <= c < out@.len() ==> out@[c].0 < out@[c].1 <= slots@.len(),
        decreases slots.len() - i,
    {
        let mut j: usize = i + 1;
        while j < slots.len() && slots[j - 1].0.sid == slots[j].0.sid && slots[j - 1].1 == slots[j].1
            && slots[j - 1].0.time < u64::MAX && slots[j].0.time == slots[j - 1].0.time + 1
            invariant
                i < j <= slots@.len(),
            decreases slots.len() - j,
        {
            j = j + 1;
        }
        out.push((i, j));
        i = j;
    }
    out
}

/// Writes the node under `id`: its metadata to `meta` and the CBOR form of
/// its view to `view`; `depth` bounds how deep the tree may go, so that
/// nodes that refer to each other in a cycle are refused.
fn encode_node_view(
    id: Timestamp,
    model: &RuntimeModel,
    table: &mut Vec<LogicalClockBase>,
    local_base: u64,
    meta: &mut Vec<u8>,
    view: &mut Vec<u8>,
    depth: usize,
) -> (res: Result<(), SidecarBinaryCodecError>)
    ensures
        res is Err ==> res == Err::<(), SidecarBinaryCodecError>(SidecarBinaryCodecError::InvalidPayload),
        old(table)@.len() <= final(table)@.len(),
    decreases depth,
{
    if depth == 0 {
        return Err(SidecarBinaryCodecError::InvalidPayload);
    }
    let node = match find_node(model, id) {
        Some(n) => n,
        None => {
            return Err(SidecarBinaryCodecError::InvalidPayload);
        },
    };
    match append_id(table, local_base, id, meta) {
        Ok(()) => {},
        Err(e) => {
            return Err(e);
        },
    }
    match node {
        RuntimeNode::Con(ConCell::Json(v)) => {
            meta.push(0);
            write_cbor_json(view, v);
        },
        RuntimeNode::Con(ConCell::Ref(r)) => {
            meta.push(1);
            match append_id(table, local_base, *r, meta) {
                Ok(()) => {},
                Err(e) => {
                    return Err(e);
                },
            }
            view.push(0xf6);
        },
        RuntimeNode::Con(ConCell::Undef) => {
            meta.push(0);
            view.push(0xf6);
        },
        RuntimeNode::Val(child) => {
            meta.push(0x20);
            return encode_node_view(*child, model, table, local_base, meta, view, depth - 1);
        },
        RuntimeNode::Obj(entries) => {
            let mut keys: Vec<Vec<char>> = Vec::new();
            let mut k: usize = 0;
            while k < entries.len()
                invariant
                    old(table)@.len() <= table@.len(),
                    k <= entries@.len(),
                    keys@.len() == k,
                decreases entries.len() - k,
            {
                keys.push(str_chars(entries[k].0.as_str()));
                k = k + 1;
            }
            let order = sorted_positions(&keys);
            write_type_len(meta, 2, entries.len() as u64);
            write_cbor_uint(view, 5, entries.len() as u64);
            let mut q: usize = 0;
            while q < order.len()
                invariant
                    old(table)@.len() <= table@.len(),
                    q <= order@.len(),
                    order@.len() == keys@.len(),
                    keys@.len() == entries@.len(),
                    forall|k: int| 0 <= k < order@.len() ==> order@[k] < keys@.len(),
                    depth > 0,
                decreases order.len() - q,
            {
                let e = order[q];
                write_cbor_text(view, entries[e].0.as_str());
                match encode_node_view(entries[e].1, model, table, local_base, meta, view, depth - 1) {
                    Ok(()) => {},
                    Err(err) => {
                        return Err(err);
                    },
                }
                q = q + 1;
            }
        },
        RuntimeNode::Vec(elements) => {
            let len: u64 = if elements.len() == 0 {
                0
            } else {
                let m = entries_max(elements);
                if m == u64::MAX {
                    return Err(SidecarBinaryCodecError::InvalidPayload);
                }
                m + 1
            };
            write_type_len(meta, 3, len);
            write_cbor_uint(view, 4, len);
            let mut i: u64 = 0;
            while i < len
                invariant
                    old(table)@.len() <= table@.len(),
                    i <= len,
                    depth > 0,
                decreases len - i,
            {
                match vec_lookup(elements, i) {
                    Some(child) => {
                        match encode_node_view(child, model, table, local_base, meta, view, depth - 1) {
                            Ok(()) => {},
                            Err(err) => {
                                return Err(err);
                            },
                        }
                    },
                    None => {
                        view.push(0xf6);
                    },
                }
                i = i + 1;
            }
        },
        RuntimeNode::Str(atoms) => {
            let mut slots: Vec<(Timestamp, bool)> = Vec::new();
            let mut text: Vec<char> = Vec::new();
            let mut k: usize = 0;
            while k < atoms.len()
                invariant
                    old(table)@.len() <= table@.len(),
                    k <= atoms@.len(),
                    slots@.len() == k,
                decreases atoms.len() - k,
            {
                slots.push((atoms[k].slot, atoms[k].ch.is_some()));
                if let Some(c) = atoms[k].ch {
                    text.push(c);
                }
                k = k + 1;
            }
            let chunks = slot_chunks(&slots);
            write_type_len(meta, 4, chunks.len() as u64);
            let mut c: usize = 0;
            while c < chunks.len()
                invariant
                    old(table)@.len() <= table@.len(),
                    c <= chunks@.len(),
                    slots@.len() == atoms@.len(),
                    forall|x: int| #![trigger chunks@[x]] 0 <= x < chunks@.len() ==> chunks@[x].0 < chunks@[x].1 <= slots@.len(),
                decreases chunks.len() - c,
            {
                let (i, j) = chunks[c];
                match append_id(table, local_base, slots[i].0, meta) {
                    Ok(()) => {},
                    Err(e) => {
                        return Err(e);
                    },
                }
                write_b1vu56(meta, if slots[i].1 { 0 } else { 1 }, (j - i) as u64);
                c = c + 1;
            }
            let s = chars_to_string(text.as_slice());
            write_cbor_text(view, s.as_str());
        },
        RuntimeNode::Bin(atoms) => {
            let mut slots: Vec<(Timestamp, bool)> = Vec::new();
            let mut bytes: Vec<u8> = Vec::new();
            let mut k: usize = 0;
            while k < atoms.len()
                invariant
                    old(table)@.len() <= table@.len(),
                    k <= atoms@.len(),
                    slots@.len() == k,
                    bytes@.len() <= k,
                decreases atoms.len() - k,
            {
                slots.push((atoms[k].slot, atoms[k].byte.is_some()));
                if let Some(b) = atoms[k].byte {
                    bytes.push(b);
                }
                k = k + 1;
            }
            let chunks = slot_chunks(&slots);
            write_type_len(meta, 5, chunks.len() as u64);
            let mut c: usize = 0;
            while c < chunks.len()
                invariant
                    old(table)@.len() <= table@.len(),
                    c <= chunks@.len(),
                    slots@.len() == atoms@.len(),
                    forall|x: int| #![trigger chunks@[x]] 0 <= x < chunks@.len() ==> chunks@[x].0 < chunks@[x].1 <= slots@.len(),
                decreases chunks.len() - c,
            {
                let (i, j) = chunks[c];
                match append_id(table, local_base, slots[i].0, meta) {
                    Ok(()) => {},
                    Err(e) => {
                        return Err(e);
                    },
                }
                write_b1vu56(meta, if slots[i].1 { 0 } else { 1 }, (j - i) as u64);
                c = c + 1;
            }
            write_cbor_uint(view, 2, bytes.len() as u64);
            let mut k: usize = 0;
            while k < bytes.len()
                invariant
                    old(table)@.len() <= table@.len(),
                    k <= bytes@.len(),
                decreases bytes.len() - k,
            {
                view.push(bytes[k]);
                k = k + 1;
            }
        },
        RuntimeNode::Arr(atoms) => {
            let mut slots: Vec<(Timestamp, bool)> = Vec::new();
            let mut live: u64 = 0;
            let mut k: usize = 0;
            while k < atoms.len()
                invariant
                    old(table)@.len() <= table@.len(),
                    k <= atoms@.len(),
                    slots@.len() == k,
                    live <= k,
                decreases atoms.len() - k,
            {
                slots.push((atoms[k].slot, atoms[k].value.is_some()));
                if atoms[k].value.is_some() {
                    live = live + 1;
                }
                k = k + 1;
            }
            let chunks = slot_chunks(&slots);
            write_type_len(meta, 6, chunks.len() as u64);
            write_cbor_uint(view, 4, live);
            let mut c: usize = 0;
            while c < chunks.len()
                invariant
                    old(table)@.len() <= table@.len(),
                    c <= chunks@.len(),
                    slots@.len() == atoms@.len(),
                    forall|x: int| #![trigger chunks@[x]] 0 <= x < chunks@.len() ==> chunks@[x].0 < chunks@[x].1 <= slots@.len(),
                    depth > 0,
                decreases chunks.len() - c,
            {
                let (i, j) = chunks[c];
                match append_id(table, local_base, slots[i].0, meta) {
                    Ok(()) => {},
                    Err(e) => {
                        return Err(e);
                    },
                }
                if slots[i].1 {
                    write_b1vu56(meta, 0, (j - i) as u64);
                    let mut a: usize = i;
                    while a < j
                        invariant
                            old(table)@.len() <= table@.len(),
                            i <= a <= j,
                            j <= atoms@.len(),
                            depth > 0,
                        decreases j - a,
                    {
                        if let Some(child) = atoms[a].value {
                            match encode_node_view(child, model, table, local_base, meta, view, depth - 1) {
                                Ok(()) => {},
                                Err(err) => {
                                    return Err(err);
                                },
                            }
                        }
                        a = a + 1;
                    }
                } else {
                    write_b1vu56(meta, 1, (j - i) as u64);
                }
                c = c + 1;
            }
        },
    }
    Ok(())
}

/// The metadata that frames a node part `body` and a session table `t`:
/// the length of the node part in four big-endian bytes, the node part, the
/// `vu57` count of the table, then its entries.
pub open spec fn sidecar_meta(body: Seq<u8>, t: Seq<LogicalClockBase>) -> Seq<u8> {
    be_bytes(body.len() as u64, 4) + body + vu57_bytes(t.len() as u64) + table_bytes(t)
}

/// The metadata framing node part `body` and session table `table` (see
/// `sidecar_meta`).
fn frame_meta(body: &Vec<u8>, table: &Vec<LogicalClockBase>) -> (res: Vec<u8>)
    ensures
        res@ == sidecar_meta(body@, table@),
{
    let mut meta: Vec<u8> = Vec::new();
    push_be(&mut meta, body.len() as u64, 4);
    let ghost head = meta@;
    let mut b: usize = 0;
    while b < body.len()
        invariant
            b <= body@.len(),
            meta@ == head + body@.take(b as int),
        decreases body.len() - b,
    {
        meta.push(body[b]);
        assert(body@.take(b + 1) =~= body@.take(b as int).push(body@[b as int]));
        b = b + 1;
    }
    assert(body@.take(body@.len() as int) =~= body@);
    write_vu57(&mut meta, table.len() as u64);
    let ghost pre = meta@;
    let mut t: usize = 0;
    assert(table@.take(0) =~= Seq::<LogicalClockBase>::empty());
    while t < table.len()
        invariant
            t <= table@.len(),
            meta@ == pre + table_bytes(table@.take(t as int)),
        decreases table.len() - t,
    {
        write_vu57(&mut meta, table[t].sid);
        write_vu57(&mut meta, table[t].time);
        proof {
            assert(table@.take(t + 1).drop_last() =~= table@.take(t as int));
            assert(table@.take(t + 1).last() == table@[t as int]);
        }
        t = t + 1;
    }
    proof {
        assert(table@.take(table@.len() as int) =~= table@);
        assert(meta@ =~= sidecar_meta(body@, table@));
    }
    meta
}

/// Splits a logical-clock model binary into its sidecar form: the CBOR form
/// of the view and the metadata (see `decode_sidecar_to_model_binary`). A
/// binary whose view does not decode fails with that model error; a
/// server-clock model is refused. The metadata frames a node part and a
/// session table that starts with the model's clock table (sessions met
/// without an entry are appended); a model without a root, or with a root of
/// session 0, gives an empty view and the node part `[0]`.
pub fn encode_model_binary_to_sidecar(model_binary: &[u8]) -> (res: Result<(Vec<u8>, Vec<u8>), SidecarBinaryCodecError>)
    ensures
        match spec_model_view(model_binary@) {
            VDec::Fail(e, _) => res == Err::<(Vec<u8>, Vec<u8>), SidecarBinaryCodecError>(SidecarBinaryCodecError::Model(e)),
            VDec::Done(_, _, _) => !(res matches Err(SidecarBinaryCodecError::Model(_))),
        },
        spec_model_view(model_binary@) is Done && (spec_decode_graph(model_binary@) matches GraphDec::Done(_, _, _, server, _)
            && server is Some) ==> res == Err::<(Vec<u8>, Vec<u8>), SidecarBinaryCodecError>(SidecarBinaryCodecError::InvalidPayload),
        res matches Ok((_, m)) ==> exists|body: Seq<u8>, t: Seq<LogicalClockBase>| t.len() > 0 && m@ == sidecar_meta(body, t),
        spec_model_view(model_binary@) is Done && (spec_decode_graph(model_binary@) matches GraphDec::Done(_, root, table, None, _)
            && (root is None || root->Some_0.sid == 0)) ==> (res matches Ok((v, m)) && v@.len() == 0
            && m@ == sidecar_meta(seq![0u8], spec_decode_graph(model_binary@)->Done_2)),
{
    proof {
        lemma_view_settled(model_binary@);
        lemma_graph_settled(model_binary@);
    }
    let runtime = match RuntimeModel::from_model_binary(model_binary) {
        Ok(r) => r,
        Err(e) => {
            return Err(SidecarBinaryCodecError::Model(e));
        },
    };
    proof {
        let v = choose|v: JsonValue| view_result_ok(model_binary@, Ok(v)) && runtime.loaded_from(model_binary@, v.jv());
        assert(view_result_ok(model_binary@, Ok(v)) && runtime.loaded_from(model_binary@, v.jv()));
        if let GraphDec::Done(_, root, t, server, _) = spec_decode_graph(model_binary@) {
            assert(runtime.graph().root == root && runtime.spec_clock_table() == t && runtime.spec_server_time() == server);
        }
    }
    if runtime.server_time().is_some() || runtime.clock_table_ref().len() == 0 {
        return Err(SidecarBinaryCodecError::InvalidPayload);
    }
    let mut table: Vec<LogicalClockBase> = Vec::new();
    let src = runtime.clock_table_ref();
    let mut k: usize = 0;
    while k < src.len()
        invariant
            k <= src@.len(),
            table@ == src@.take(k as int),
        decreases src.len() - k,
    {
        table.push(src[k]);
        assert(table@ =~= src@.take(k + 1));
        k = k + 1;
    }
    assert(table@ =~= src@);
    let local_base = src[0].time;
    let mut body: Vec<u8> = Vec::new();
    let mut view: Vec<u8> = Vec::new();
    match runtime.root_id() {
        Some(root) => {
            if root.sid != 0 {
                let n = runtime.node_count();
                let depth = if n < usize::MAX { n + 1 } else { n };
                match encode_node_view(root, &runtime, &mut table, local_base, &mut body, &mut view, depth) {
                    Ok(()) => {},
                    Err(e) => {
                        return Err(e);
                    },
                }
            } else {
                body.push(0);
                assert(body@ =~= seq![0u8]);
            }
        },
        None => {
            body.push(0);
            assert(body@ =~= seq![0u8]);
        },
    }
    let meta = frame_meta(&body, &table);
    proof {
        assert(table@.len() > 0);
    }
    Ok((view, meta))
}

} // verus!
