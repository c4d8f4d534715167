//! Reading the indexed form back: node payloads, the clock table field, the
//! root field and field names, and the model binary rebuilt from them.
//!
//! A payload starts with an octet whose high three bits give the node kind
//! and whose low five bits give its length (24, 25 and 26 meaning that one,
//! two or four big-endian bytes follow). Identifiers are one byte below 0x80
//! (table index in the high nibble, time in the low one), else a `b1vu56`
//! with flag 1 holding the table index and then a `vu57` time. Slot times of
//! a chunk count up from its identifier's time and wrap around at 2^64.

use vstd::prelude::*;
use crate::cbor::{cbor_json, cbor_read_one, cbor_to_json, int_to_json, spec_int_to_json, CborHead, CborRead};
use crate::crdt_binary::{read_b1vu56, read_vu57, spec_read_b1vu56, spec_read_vu57, LogicalClockBase};
use crate::json::{JsonValue, JsonView};
use crate::model::ModelError;
use crate::model_runtime::decode::{
    chunk_atoms, chunk_slot, deleted_atoms, lemma_table_err, put_node, sd_cbor, sd_table_entries,
    store_put,
};
use crate::model_runtime::encode::{logical_binary, ModelBin};
use crate::model_runtime::RuntimeModel;
use crate::model_runtime::types::store_view;
use crate::patch_verbose_codec::text_is;
use crate::model_runtime::types::{
    arr_atoms_view, bin_atoms_view, obj_entries_view, str_atoms_view, ArrAtom, BinAtom, ConCell, ConCellV, NodeV,
    RuntimeNode, StrAtom,
};
use crate::patch::Timestamp;
use super::{fields_view, IndexedBinaryCodecError};

verus! {

// ---------------------------------------------------------------------------
// What a payload describes
// ---------------------------------------------------------------------------

/// The identifier at `pos` and the position after it.
pub open spec fn si_id(ct: Seq<LogicalClockBase>, data: Seq<u8>, pos: int) -> Option<(Timestamp, int)> {
    if pos < 0 || pos >= data.len() {
        None
    } else if data[pos] <= 0x7f {
        let x = (data[pos] >> 4u8) as int;
        if x < ct.len() {
            Some((Timestamp { sid: ct[x].sid, time: (data[pos] & 0x0fu8) as u64 }, pos + 1))
        } else {
            None
        }
    } else {
        match spec_read_b1vu56(data, pos) {
            (Some((flag, x)), p) => if flag != 1 {
                None
            } else {
                match spec_read_vu57(data, p) {
                    (Some(y), p2) => if x < ct.len() {
                        Some((Timestamp { sid: ct[x as int].sid, time: y }, p2))
                    } else {
                        None
                    },
                    (None, _) => None,
                }
            },
            (None, _) => None,
        }
    }
}

/// The length given by the low bits `minor` of the first octet, read from
/// `pos` on, and the position after it.
pub open spec fn si_len(data: Seq<u8>, pos: int, minor: u8) -> Option<(u64, int)> {
    if minor <= 23 {
        Some((minor as u64, pos))
    } else if minor == 24 {
        if 0 <= pos && pos + 1 <= data.len() {
            Some((data[pos] as u64, pos + 1))
        } else {
            None
        }
    } else if minor == 25 {
        if 0 <= pos && pos + 2 <= data.len() {
            Some(((data[pos] * 0x100 + data[pos + 1]) as u64, pos + 2))
        } else {
            None
        }
    } else if minor == 26 {
        if 0 <= pos && pos + 4 <= data.len() {
            Some((
                (data[pos] * 0x100_0000 + data[pos + 1] * 0x1_0000 + data[pos + 2] * 0x100 + data[pos + 3]) as u64,
                pos + 4,
            ))
        } else {
            None
        }
    } else {
        None
    }
}

/// The content of a constant written as a value at `pos`: `0xf7` for
/// undefined, else a CBOR item converted into JSON (see `cbor_json`).
pub open spec fn si_con(data: Seq<u8>, pos: int) -> Option<(ConCellV, int)> {
    if 0 <= pos < data.len() && data[pos] == 0xf7 {
        Some((ConCellV::Undef, pos + 1))
    } else {
        match sd_cbor(data, pos) {
            None => None,
            Some((CborHead::Text(t), p)) => Some((ConCellV::Json(JsonView::String(t)), p)),
            Some((CborHead::Integer(i), p)) => match spec_int_to_json(i) {
                Some(n) => Some((ConCellV::Json(JsonView::Number(n)), p)),
                None => None,
            },
            Some((CborHead::Other(v), p)) => match cbor_json(v, 257) {
                Some(j) => Some((ConCellV::Json(j), p)),
                None => None,
            },
        }
    }
}

/// `k` object entries: a CBOR text key, then an identifier.
pub open spec fn si_obj(ct: Seq<LogicalClockBase>, data: Seq<u8>, pos: int, k: nat) -> Option<(Seq<(Seq<char>, Timestamp)>, int)>
    decreases k,
{
    if k == 0 {
        Some((Seq::empty(), pos))
    } else {
        match si_obj(ct, data, pos, (k - 1) as nat) {
            None => None,
            Some((es, p)) => match sd_cbor(data, p) {
                Some((CborHead::Text(key), p2)) => match si_id(ct, data, p2) {
                    Some((id, p3)) => Some((es.push((key, id)), p3)),
                    None => None,
                },
                _ => None,
            },
        }
    }
}

/// `k` vector slots: a byte, zero for an empty slot, else followed by the
/// identifier of the slot's value.
pub open spec fn si_vec(ct: Seq<LogicalClockBase>, data: Seq<u8>, pos: int, k: nat) -> Option<(Seq<(u64, Timestamp)>, int)>
    decreases k,
{
    if k == 0 {
        Some((Seq::empty(), pos))
    } else {
        match si_vec(ct, data, pos, (k - 1) as nat) {
            None => None,
            Some((es, p)) => if p < 0 || p >= data.len() {
                None
            } else if data[p] == 0 {
                Some((es, p + 1))
            } else {
                match si_id(ct, data, p + 1) {
                    Some((id, p2)) => Some((es.push((((k - 1) as nat) as u64, id)), p2)),
                    None => None,
                }
            },
        }
    }
}

/// `k` string chunks: an identifier, then a CBOR text (live characters) or a
/// CBOR integer (the length of a deleted run).
pub open spec fn si_str(ct: Seq<LogicalClockBase>, data: Seq<u8>, pos: int, k: nat) -> Option<(Seq<(Timestamp, Option<char>)>, int)>
    decreases k,
{
    if k == 0 {
        Some((Seq::empty(), pos))
    } else {
        match si_str(ct, data, pos, (k - 1) as nat) {
            None => None,
            Some((atoms, p)) => match si_id(ct, data, p) {
                None => None,
                Some((id, p1)) => match sd_cbor(data, p1) {
                    Some((CborHead::Text(t), p2)) => Some((atoms + chunk_atoms(id, t), p2)),
                    Some((CborHead::Integer(i), p2)) => if 0 <= i <= u64::MAX {
                        Some((atoms + deleted_atoms::<char>(id, i as nat), p2))
                    } else {
                        None
                    },
                    _ => None,
                },
            },
        }
    }
}

/// `k` binary chunks: an identifier, then a `b1vu56` whose flag marks a
/// deleted run and whose value is the length, then the bytes of a live run.
pub open spec fn si_bin(ct: Seq<LogicalClockBase>, data: Seq<u8>, pos: int, k: nat) -> Option<(Seq<(Timestamp, Option<u8>)>, int)>
    decreases k,
{
    if k == 0 {
        Some((Seq::empty(), pos))
    } else {
        match si_bin(ct, data, pos, (k - 1) as nat) {
            None => None,
            Some((atoms, p)) => match si_id(ct, data, p) {
                None => None,
                Some((id, p1)) => match spec_read_b1vu56(data, p1) {
                    (None, _) => None,
                    (Some((deleted, span)), p2) => if deleted == 1 {
                        Some((atoms + deleted_atoms::<u8>(id, span as nat), p2))
                    } else if p2 + span > data.len() {
                        None
                    } else {
                        Some((atoms + chunk_atoms(id, data.subrange(p2, p2 + span)), p2 + span))
                    },
                },
            },
        }
    }
}

/// The first `n` items of a live array chunk with identifier `id`: the
/// identifier of each item's value.
pub open spec fn si_items(ct: Seq<LogicalClockBase>, data: Seq<u8>, pos: int, id: Timestamp, n: nat) -> Option<(Seq<(Timestamp, Option<Timestamp>)>, int)>
    decreases n,
{
    if n == 0 {
        Some((Seq::empty(), pos))
    } else {
        match si_items(ct, data, pos, id, (n - 1) as nat) {
            None => None,
            Some((items, p)) => match si_id(ct, data, p) {
                Some((v, p2)) => Some((items.push((chunk_slot(id, n - 1), Some(v))), p2)),
                None => None,
            },
        }
    }
}

/// `k` array chunks: an identifier, then a `b1vu56` whose flag marks a
/// deleted run and whose value is the length, then the items of a live run.
pub open spec fn si_arr(ct: Seq<LogicalClockBase>, data: Seq<u8>, pos: int, k: nat) -> Option<(Seq<(Timestamp, Option<Timestamp>)>, int)>
    decreases k,
{
    if k == 0 {
        Some((Seq::empty(), pos))
    } else {
        match si_arr(ct, data, pos, (k - 1) as nat) {
            None => None,
            Some((atoms, p)) => match si_id(ct, data, p) {
                None => None,
                Some((id, p1)) => match spec_read_b1vu56(data, p1) {
                    (None, _) => None,
                    (Some((deleted, span)), p2) => if deleted == 1 {
                        Some((atoms + deleted_atoms::<Timestamp>(id, span as nat), p2))
                    } else {
                        match si_items(ct, data, p2, id, span as nat) {
                            Some((items, p3)) => Some((atoms + items, p3)),
                            None => None,
                        }
                    },
                },
            },
        }
    }
}

/// The node of kind `major` and length `len` whose body starts at `pos`, and
/// the position after it.
pub open spec fn si_body(ct: Seq<LogicalClockBase>, data: Seq<u8>, pos: int, major: u8, len: u64) -> Option<(NodeV, int)> {
    if major == 0 {
        if len == 0 {
            match si_con(data, pos) {
                Some((c, p)) => Some((NodeV::Con(c), p)),
                None => None,
            }
        } else {
            match si_id(ct, data, pos) {
                Some((r, p)) => Some((NodeV::Con(ConCellV::Ref(r)), p)),
                None => None,
            }
        }
    } else if major == 1 {
        match si_id(ct, data, pos) {
            Some((c, p)) => Some((NodeV::Val(c), p)),
            None => None,
        }
    } else if major == 2 {
        match si_obj(ct, data, pos, len as nat) {
            Some((es, p)) => Some((NodeV::Obj(es), p)),
            None => None,
        }
    } else if major == 3 {
        match si_vec(ct, data, pos, len as nat) {
            Some((es, p)) => Some((NodeV::Vec(es), p)),
            None => None,
        }
    } else if major == 4 {
        match si_str(ct, data, pos, len as nat) {
            Some((a, p)) => Some((NodeV::Str(a), p)),
            None => None,
        }
    } else if major == 5 {
        match si_bin(ct, data, pos, len as nat) {
            Some((a, p)) => Some((NodeV::Bin(a), p)),
            None => None,
        }
    } else if major == 6 {
        match si_arr(ct, data, pos, len as nat) {
            Some((a, p)) => Some((NodeV::Arr(a), p)),
            None => None,
        }
    } else {
        None
    }
}

/// The node a whole payload describes; `None` where it is refused.
pub open spec fn si_payload(ct: Seq<LogicalClockBase>, data: Seq<u8>) -> Option<NodeV> {
    if data.len() == 0 {
        None
    } else {
        match si_len(data, 1, data[0] & 0x1fu8) {
            None => None,
            Some((len, p)) => match si_body(ct, data, p, data[0] >> 5u8, len) {
                Some((n, e)) => if e == data.len() {
                    Some(n)
                } else {
                    None
                },
                None => None,
            },
        }
    }
}

/// What a payload decoding owes its description: the described node, or the
/// refusal of an undescribed payload.
pub open spec fn payload_result_ok(d: Option<NodeV>, res: Result<RuntimeNode, IndexedBinaryCodecError>) -> bool {
    match d {
        None => res == Err::<RuntimeNode, IndexedBinaryCodecError>(IndexedBinaryCodecError::InvalidNode),
        Some(n) => res matches Ok(node) && node.nv() == n,
    }
}

// ---------------------------------------------------------------------------
// A failed step fails the rest
// ---------------------------------------------------------------------------

proof fn lemma_obj_none(ct: Seq<LogicalClockBase>, data: Seq<u8>, pos: int, i: nat, n: nat)
    requires
        i <= n,
        si_obj(ct, data, pos, i) is None,
    ensures
        si_obj(ct, data, pos, n) is None,
    decreases n,
{
    if n > i {
        lemma_obj_none(ct, data, pos, i, (n - 1) as nat);
    }
}

proof fn lemma_vec_none(ct: Seq<LogicalClockBase>, data: Seq<u8>, pos: int, i: nat, n: nat)
    requires
        i <= n,
        si_vec(ct, data, pos, i) is None,
    ensures
        si_vec(ct, data, pos, n) is None,
    decreases n,
{
    if n > i {
        lemma_vec_none(ct, data, pos, i, (n - 1) as nat);
    }
}

proof fn lemma_str_none(ct: Seq<LogicalClockBase>, data: Seq<u8>, pos: int, i: nat, n: nat)
    requires
        i <= n,
        si_str(ct, data, pos, i) is None,
    ensures
        si_str(ct, data, pos, n) is None,
    decreases n,
{
    if n > i {
        lemma_str_none(ct, data, pos, i, (n - 1) as nat);
    }
}

proof fn lemma_bin_none(ct: Seq<LogicalClockBase>, data: Seq<u8>, pos: int, i: nat, n: nat)
    requires
        i <= n,
        si_bin(ct, data, pos, i) is None,
    ensures
        si_bin(ct, data, pos, n) is None,
    decreases n,
{
    if n > i {
        lemma_bin_none(ct, data, pos, i, (n - 1) as nat);
    }
}

proof fn lemma_arr_none(ct: Seq<LogicalClockBase>, data: Seq<u8>, pos: int, i: nat, n: nat)
    requires
        i <= n,
        si_arr(ct, data, pos, i) is None,
    ensures
        si_arr(ct, data, pos, n) is None,
    decreases n,
{
    if n > i {
        lemma_arr_none(ct, data, pos, i, (n - 1) as nat);
    }
}

proof fn lemma_items_none(ct: Seq<LogicalClockBase>, data: Seq<u8>, pos: int, id: Timestamp, i: nat, n: nat)
    requires
        i <= n,
        si_items(ct, data, pos, id, i) is None,
    ensures
        si_items(ct, data, pos, id, n) is None,
    decreases n,
{
    if n > i {
        lemma_items_none(ct, data, pos, id, i, (n - 1) as nat);
    }
}

// ---------------------------------------------------------------------------
// Reading a payload
// ---------------------------------------------------------------------------

struct PayloadCursor<'a> {
    data: &'a [u8],
    pos: usize,
}

impl<'a> PayloadCursor<'a> {
    /// The cursor keeps its input and stays within it.
    spec fn keeps(&self, o: &Self) -> bool {
        &&& self.data@ == o.data@
        &&& self.pos <= self.data@.len()
    }

    /// The identifier at the position (see `si_id`).
    fn id(&mut self, ct: &Vec<LogicalClockBase>) -> (res: Option<Timestamp>)
        requires
            old(self).pos <= old(self).data@.len(),
        ensures
            final(self).keeps(old(self)),
            match si_id(ct@, old(self).data@, old(self).pos as int) {
                Some((t, p)) => res == Some(t) && final(self).pos == p,
                None => res is None,
            },
    {
        if self.pos >= self.data.len() {
            return None;
        }
        let first = self.data[self.pos];
        if first <= 0x7f {
            let x = (first >> 4) as usize;
            if x >= ct.len() {
                return None;
            }
            self.pos = self.pos + 1;
            Some(Timestamp { sid: ct[x].sid, time: (first & 0x0f) as u64 })
        } else {
            let mut p = self.pos;
            proof {
                crate::crdt_binary::lemma_read_b1vu56_pos(self.data@, p as int);
            }
            match read_b1vu56(self.data, &mut p) {
                None => None,
                Some((flag, x)) => {
                    if flag != 1 {
                        return None;
                    }
                    proof {
                        crate::crdt_binary::lemma_read_vu57_pos(self.data@, p as int);
                    }
                    match read_vu57(self.data, &mut p) {
                        None => None,
                        Some(y) => {
                            if x >= ct.len() as u64 {
                                return None;
                            }
                            self.pos = p;
                            Some(Timestamp { sid: ct[x as usize].sid, time: y })
                        },
                    }
                },
            }
        }
    }

    /// The length at the position for the low bits `minor` (see `si_len`).
    fn len(&mut self, minor: u8) -> (res: Option<u64>)
        requires
            old(self).pos <= old(self).data@.len(),
        ensures
            final(self).keeps(old(self)),
            match si_len(old(self).data@, old(self).pos as int, minor) {
                Some((v, p)) => res == Some(v) && final(self).pos == p,
                None => res is None,
            },
    {
        let n = self.data.len();
        let p = self.pos;
        if minor <= 23 {
            return Some(minor as u64);
        }
        if minor == 24 {
            if n - p < 1 {
                return None;
            }
            self.pos = p + 1;
            return Some(self.data[p] as u64);
        }
        if minor == 25 {
            if n - p < 2 {
                return None;
            }
            let v = (self.data[p] as u64) * 0x100 + (self.data[p + 1] as u64);
            self.pos = p + 2;
            return Some(v);
        }
        if minor == 26 {
            if n - p < 4 {
                return None;
            }
            let v = (self.data[p] as u64) * 0x100_0000 + (self.data[p + 1] as u64) * 0x1_0000
                + (self.data[p + 2] as u64) * 0x100 + (self.data[p + 3] as u64);
            self.pos = p + 4;
            return Some(v);
        }
        None
    }

    /// The CBOR item at the position (see `sd_cbor`).
    fn cbor(&mut self) -> (res: Option<CborRead>)
        requires
            old(self).pos <= old(self).data@.len(),
        ensures
            final(self).keeps(old(self)),
            match res {
                Some(CborRead::Text(s, _)) => sd_cbor(old(self).data@, old(self).pos as int) == Some((CborHead::Text(s@), final(self).pos as int)),
                Some(CborRead::Integer(i, _)) => sd_cbor(old(self).data@, old(self).pos as int) == Some((CborHead::Integer(i as int), final(self).pos as int)),
                Some(CborRead::Other(v, _)) => sd_cbor(old(self).data@, old(self).pos as int) == Some((CborHead::Other(v), final(self).pos as int)),
                None => sd_cbor(old(self).data@, old(self).pos as int) is None,
            },
    {
        let slice = vstd::slice::slice_subrange(self.data, self.pos, self.data.len());
        let r = cbor_read_one(slice);
        match r {
            None => None,
            Some(item) => {
                let n = match &item {
                    CborRead::Text(_, n) => *n,
                    CborRead::Integer(_, n) => *n,
                    CborRead::Other(_, n) => *n,
                };
                self.pos = self.pos + n;
                Some(item)
            },
        }
    }

    /// The constant written as a value at the position (see `si_con`).
    fn con(&mut self) -> (res: Option<ConCell>)
        requires
            old(self).pos <= old(self).data@.len(),
        ensures
            final(self).keeps(old(self)),
            match si_con(old(self).data@, old(self).pos as int) {
                Some((c, p)) => res matches Some(cc) && cc.cv() == c && final(self).pos == p,
                None => res is None,
            },
    {
        if self.pos < self.data.len() && self.data[self.pos] == 0xf7 {
            self.pos = self.pos + 1;
            return Some(ConCell::Undef);
        }
        match self.cbor() {
            None => None,
            Some(CborRead::Text(t, _)) => Some(ConCell::Json(JsonValue::String(t))),
            Some(CborRead::Integer(i, _)) => match int_to_json(i) {
                Some(n) => Some(ConCell::Json(JsonValue::Number(n))),
                None => None,
            },
            Some(CborRead::Other(v, _)) => match cbor_to_json(&v, 257) {
                Some(j) => Some(ConCell::Json(j)),
                None => None,
            },
        }
    }
}

impl<'a> PayloadCursor<'a> {
    /// `n` object entries (see `si_obj`).
    fn obj(&mut self, ct: &Vec<LogicalClockBase>, n: u64) -> (res: Option<Vec<(String, Timestamp)>>)
        requires
            old(self).pos <= old(self).data@.len(),
        ensures
            final(self).keeps(old(self)),
            match si_obj(ct@, old(self).data@, old(self).pos as int, n as nat) {
                Some((es, p)) => res matches Some(v) && obj_entries_view(v@) == es && final(self).pos == p,
                None => res is None,
            },
    {
        let ghost data = self.data@;
        let ghost start = self.pos as int;
        let mut es: Vec<(String, Timestamp)> = Vec::new();
        let mut i: u64 = 0;
        assert(obj_entries_view(es@) =~= Seq::<(Seq<char>, Timestamp)>::empty());
        while i < n
            invariant
                self.data@ == data,
                data == old(self).data@,
                start == old(self).pos as int,
                self.pos <= data.len(),
                i <= n,
                si_obj(ct@, data, start, i as nat) == Some((obj_entries_view(es@), self.pos as int)),
            decreases n - i,
        {
            let key = match self.cbor() {
                Some(CborRead::Text(s, _)) => s,
                _ => {
                    proof {
                        lemma_obj_none(ct@, data, start, (i + 1) as nat, n as nat);
                    }
                    return None;
                },
            };
            let id = match self.id(ct) {
                Some(id) => id,
                None => {
                    proof {
                        lemma_obj_none(ct@, data, start, (i + 1) as nat, n as nat);
                    }
                    return None;
                },
            };
            let ghost v0 = obj_entries_view(es@);
            es.push((key, id));
            proof {
                assert(obj_entries_view(es@) =~= v0.push((key@, id)));
            }
            i = i + 1;
        }
        Some(es)
    }

    /// `n` vector slots (see `si_vec`).
    fn vec(&mut self, ct: &Vec<LogicalClockBase>, n: u64) -> (res: Option<Vec<(u64, Timestamp)>>)
        requires
            old(self).pos <= old(self).data@.len(),
        ensures
            final(self).keeps(old(self)),
            match si_vec(ct@, old(self).data@, old(self).pos as int, n as nat) {
                Some((es, p)) => res matches Some(v) && v@ == es && final(self).pos == p,
                None => res is None,
            },
    {
        let ghost data = self.data@;
        let ghost start = self.pos as int;
        let mut es: Vec<(u64, Timestamp)> = Vec::new();
        let mut i: u64 = 0;
        while i < n
            invariant
                self.data@ == data,
                data == old(self).data@,
                start == old(self).pos as int,
                self.pos <= data.len(),
                i <= n,
                si_vec(ct@, data, start, i as nat) == Some((es@, self.pos as int)),
            decreases n - i,
        {
            if self.pos >= self.data.len() {
                proof {
                    lemma_vec_none(ct@, data, start, (i + 1) as nat, n as nat);
                }
                return None;
            }
            let flag = self.data[self.pos];
            self.pos = self.pos + 1;
            if flag != 0 {
                let id = match self.id(ct) {
                    Some(id) => id,
                    None => {
                        proof {
                            lemma_vec_none(ct@, data, start, (i + 1) as nat, n as nat);
                        }
                        return None;
                    },
                };
                es.push((i, id));
            }
            i = i + 1;
        }
        Some(es)
    }

    /// `n` string chunks (see `si_str`).
    fn str_chunks(&mut self, ct: &Vec<LogicalClockBase>, n: u64) -> (res: Option<Vec<StrAtom>>)
        requires
            old(self).pos <= old(self).data@.len(),
        ensures
            final(self).keeps(old(self)),
            match si_str(ct@, old(self).data@, old(self).pos as int, n as nat) {
                Some((a, p)) => res matches Some(v) && str_atoms_view(v@) == a && final(self).pos == p,
                None => res is None,
            },
    {
        let ghost data = self.data@;
        let ghost start = self.pos as int;
        let mut atoms: Vec<StrAtom> = Vec::new();
        let mut i: u64 = 0;
        assert(str_atoms_view(atoms@) =~= Seq::<(Timestamp, Option<char>)>::empty());
        while i < n
            invariant
                self.data@ == data,
                data == old(self).data@,
                start == old(self).pos as int,
                self.pos <= data.len(),
                i <= n,
                si_str(ct@, data, start, i as nat) == Some((str_atoms_view(atoms@), self.pos as int)),
            decreases n - i,
        {
            let id = match self.id(ct) {
                Some(id) => id,
                None => {
                    proof {
                        lemma_str_none(ct@, data, start, (i + 1) as nat, n as nat);
                    }
                    return None;
                },
            };
            let ghost a0 = str_atoms_view(atoms@);
            match self.cbor() {
                Some(CborRead::Text(t, _)) => {
                    let chars = crate::text::str_chars(t.as_str());
                    let mut k: usize = 0;
                    while k < chars.len()
                        invariant
                            k <= chars@.len(),
                            chars@ == t@,
                            str_atoms_view(atoms@) =~= a0 + chunk_atoms(id, chars@.take(k as int)),
                        decreases chars.len() - k,
                    {
                        let time = id.time.wrapping_add(k as u64);
                        let ghost v0 = str_atoms_view(atoms@);
                        atoms.push(StrAtom { slot: Timestamp { sid: id.sid, time }, ch: Some(chars[k]) });
                        proof {
                            assert(chars@.take(k + 1) =~= chars@.take(k as int).push(chars@[k as int]));
                            assert(chunk_atoms(id, chars@.take(k + 1)) =~= chunk_atoms(id, chars@.take(k as int)).push((chunk_slot(id, k as int), Some(chars@[k as int]))));
                            assert(str_atoms_view(atoms@) =~= v0.push((chunk_slot(id, k as int), Some(chars@[k as int]))));
                        }
                        k = k + 1;
                    }
                    assert(chars@.take(chars@.len() as int) =~= chars@);
                },
                Some(CborRead::Integer(v, _)) => {
                    if v < 0 || v > 0xffff_ffff_ffff_ffffi128 {
                        proof {
                            lemma_str_none(ct@, data, start, (i + 1) as nat, n as nat);
                        }
                        return None;
                    }
                    let span = v as u64;
                    let mut k: u64 = 0;
                    while k < span
                        invariant
                            k <= span,
                            str_atoms_view(atoms@) =~= a0 + deleted_atoms::<char>(id, k as nat),
                        decreases span - k,
                    {
                        let time = id.time.wrapping_add(k);
                        let ghost v0 = str_atoms_view(atoms@);
                        atoms.push(StrAtom { slot: Timestamp { sid: id.sid, time }, ch: None });
                        proof {
                            assert(deleted_atoms::<char>(id, (k + 1) as nat) =~= deleted_atoms::<char>(id, k as nat).push((chunk_slot(id, k as int), None)));
                            assert(str_atoms_view(atoms@) =~= v0.push((chunk_slot(id, k as int), None)));
                        }
                        k = k + 1;
                    }
                },
                _ => {
                    proof {
                        lemma_str_none(ct@, data, start, (i + 1) as nat, n as nat);
                    }
                    return None;
                },
            }
            i = i + 1;
        }
        Some(atoms)
    }
}

impl<'a> PayloadCursor<'a> {
    /// `n` binary chunks (see `si_bin`).
    fn bin_chunks(&mut self, ct: &Vec<LogicalClockBase>, n: u64) -> (res: Option<Vec<BinAtom>>)
        requires
            old(self).pos <= old(self).data@.len(),
        ensures
            final(self).keeps(old(self)),
            match si_bin(ct@, old(self).data@, old(self).pos as int, n as nat) {
                Some((a, p)) => res matches Some(v) && bin_atoms_view(v@) == a && final(self).pos == p,
                None => res is None,
            },
    {
        let ghost data = self.data@;
        let ghost start = self.pos as int;
        let mut atoms: Vec<BinAtom> = Vec::new();
        let mut i: u64 = 0;
        assert(bin_atoms_view(atoms@) =~= Seq::<(Timestamp, Option<u8>)>::empty());
        while i < n
            invariant
                self.data@ == data,
                data == old(self).data@,
                start == old(self).pos as int,
                self.pos <= data.len(),
                i <= n,
                si_bin(ct@, data, start, i as nat) == Some((bin_atoms_view(atoms@), self.pos as int)),
            decreases n - i,
        {
            let id = match self.id(ct) {
                Some(id) => id,
                None => {
                    proof {
                        lemma_bin_none(ct@, data, start, (i + 1) as nat, n as nat);
                    }
                    return None;
                },
            };
            let ghost a0 = bin_atoms_view(atoms@);
            let mut p = self.pos;
            proof {
                crate::crdt_binary::lemma_read_b1vu56_pos(data, p as int);
            }
            match read_b1vu56(self.data, &mut p) {
                None => {
                    proof {
                        lemma_bin_none(ct@, data, start, (i + 1) as nat, n as nat);
                    }
                    return None;
                },
                Some((deleted, span)) => {
                    self.pos = p;
                    if deleted == 1 {
                        let mut k: u64 = 0;
                        while k < span
                            invariant
                                k <= span,
                                bin_atoms_view(atoms@) =~= a0 + deleted_atoms::<u8>(id, k as nat),
                            decreases span - k,
                        {
                            let time = id.time.wrapping_add(k);
                            let ghost v0 = bin_atoms_view(atoms@);
                            atoms.push(BinAtom { slot: Timestamp { sid: id.sid, time }, byte: None });
                            proof {
                                assert(deleted_atoms::<u8>(id, (k + 1) as nat) =~= deleted_atoms::<u8>(id, k as nat).push((chunk_slot(id, k as int), None)));
                                assert(bin_atoms_view(atoms@) =~= v0.push((chunk_slot(id, k as int), None)));
                            }
                            k = k + 1;
                        }
                    } else {
                        if span > (self.data.len() - self.pos) as u64 {
                            proof {
                                lemma_bin_none(ct@, data, start, (i + 1) as nat, n as nat);
                            }
                            return None;
                        }
                        let len = span as usize;
                        let base = self.pos;
                        let bytes = self.data;
                        let dlen = bytes.len();
                        let mut k: usize = 0;
                        while k < len
                            invariant
                                k <= len,
                                dlen == bytes@.len(),
                                base + len <= dlen,
                                bytes@ == data,
                                len == span,
                                bin_atoms_view(atoms@) =~= a0 + chunk_atoms(id, data.subrange(base as int, base + k)),
                            decreases len - k,
                        {
                            let time = id.time.wrapping_add(k as u64);
                            let b = bytes[base + k];
                            let ghost v0 = bin_atoms_view(atoms@);
                            atoms.push(BinAtom { slot: Timestamp { sid: id.sid, time }, byte: Some(b) });
                            proof {
                                assert(data.subrange(base as int, base + k + 1) =~= data.subrange(base as int, base + k).push(b));
                                assert(chunk_atoms(id, data.subrange(base as int, base + k + 1)) =~= chunk_atoms(id, data.subrange(base as int, base + k)).push((chunk_slot(id, k as int), Some(b))));
                                assert(bin_atoms_view(atoms@) =~= v0.push((chunk_slot(id, k as int), Some(b))));
                            }
                            k = k + 1;
                        }
                        self.pos = base + len;
                    }
                },
            }
            i = i + 1;
        }
        Some(atoms)
    }

    /// The `n` items of a live array chunk with identifier `id` (see `si_items`).
    fn items(&mut self, ct: &Vec<LogicalClockBase>, id: Timestamp, n: u64, atoms: &mut Vec<ArrAtom>) -> (ok: bool)
        requires
            old(self).pos <= old(self).data@.len(),
        ensures
            final(self).keeps(old(self)),
            match si_items(ct@, old(self).data@, old(self).pos as int, id, n as nat) {
                Some((items, p)) => ok && arr_atoms_view(final(atoms)@) == arr_atoms_view(old(atoms)@) + items
                    && final(self).pos == p,
                None => !ok,
            },
    {
        let ghost data = self.data@;
        let ghost start = self.pos as int;
        let ghost a0 = arr_atoms_view(atoms@);
        let mut k: u64 = 0;
        assert(a0 + Seq::<(Timestamp, Option<Timestamp>)>::empty() =~= a0);
        while k < n
            invariant
                self.data@ == data,
                data == old(self).data@,
                start == old(self).pos as int,
                a0 == arr_atoms_view(old(atoms)@),
                self.pos <= data.len(),
                k <= n,
                si_items(ct@, data, start, id, k as nat) matches Some((items, p))
                    && arr_atoms_view(atoms@) == a0 + items && self.pos == p,
            decreases n - k,
        {
            let ghost items0 = si_items(ct@, data, start, id, k as nat)->Some_0.0;
            let v = match self.id(ct) {
                Some(v) => v,
                None => {
                    proof {
                        lemma_items_none(ct@, data, start, id, (k + 1) as nat, n as nat);
                    }
                    return false;
                },
            };
            let time = id.time.wrapping_add(k);
            let ghost v0 = arr_atoms_view(atoms@);
            atoms.push(ArrAtom { slot: Timestamp { sid: id.sid, time }, value: Some(v) });
            proof {
                assert(arr_atoms_view(atoms@) =~= v0.push((chunk_slot(id, k as int), Some(v))));
                assert(a0 + items0.push((chunk_slot(id, k as int), Some(v))) =~= (a0 + items0).push((chunk_slot(id, k as int), Some(v))));
            }
            k = k + 1;
        }
        true
    }

    /// `n` array chunks (see `si_arr`).
    fn arr_chunks(&mut self, ct: &Vec<LogicalClockBase>, n: u64) -> (res: Option<Vec<ArrAtom>>)
        requires
            old(self).pos <= old(self).data@.len(),
        ensures
            final(self).keeps(old(self)),
            match si_arr(ct@, old(self).data@, old(self).pos as int, n as nat) {
                Some((a, p)) => res matches Some(v) && arr_atoms_view(v@) == a && final(self).pos == p,
                None => res is None,
            },
    {
        let ghost data = self.data@;
        let ghost start = self.pos as int;
        let mut atoms: Vec<ArrAtom> = Vec::new();
        let mut i: u64 = 0;
        assert(arr_atoms_view(atoms@) =~= Seq::<(Timestamp, Option<Timestamp>)>::empty());
        while i < n
            invariant
                self.data@ == data,
                data == old(self).data@,
                start == old(self).pos as int,
                self.pos <= data.len(),
                i <= n,
                si_arr(ct@, data, start, i as nat) == Some((arr_atoms_view(atoms@), self.pos as int)),
            decreases n - i,
        {
            let id = match self.id(ct) {
                Some(id) => id,
                None => {
                    proof {
                        lemma_arr_none(ct@, data, start, (i + 1) as nat, n as nat);
                    }
                    return None;
                },
            };
            let ghost a0 = arr_atoms_view(atoms@);
            let mut p = self.pos;
            proof {
                crate::crdt_binary::lemma_read_b1vu56_pos(data, p as int);
            }
            match read_b1vu56(self.data, &mut p) {
                None => {
                    proof {
                        lemma_arr_none(ct@, data, start, (i + 1) as nat, n as nat);
                    }
                    return None;
                },
                Some((deleted, span)) => {
                    self.pos = p;
                    if deleted == 1 {
                        let mut k: u64 = 0;
                        while k < span
                            invariant
                                k <= span,
                                arr_atoms_view(atoms@) =~= a0 + deleted_atoms::<Timestamp>(id, k as nat),
                            decreases span - k,
                        {
                            let time = id.time.wrapping_add(k);
                            let ghost v0 = arr_atoms_view(atoms@);
                            atoms.push(ArrAtom { slot: Timestamp { sid: id.sid, time }, value: None });
                            proof {
                                assert(deleted_atoms::<Timestamp>(id, (k + 1) as nat) =~= deleted_atoms::<Timestamp>(id, k as nat).push((chunk_slot(id, k as int), None)));
                                assert(arr_atoms_view(atoms@) =~= v0.push((chunk_slot(id, k as int), None)));
                            }
                            k = k + 1;
                        }
                    } else {
                        if !self.items(ct, id, span, &mut atoms) {
                            proof {
                                lemma_arr_none(ct@, data, start, (i + 1) as nat, n as nat);
                            }
                            return None;
                        }
                    }
                },
            }
            i = i + 1;
        }
        Some(atoms)
    }
}

/// Decodes a node payload of the indexed form, identifiers being indices
/// into the clock table `ct`.
pub fn decode_node_payload(payload: &[u8], ct: &Vec<LogicalClockBase>) -> (res: Result<RuntimeNode, IndexedBinaryCodecError>)
    ensures
        payload_result_ok(si_payload(ct@, payload@), res),
{
    if payload.len() == 0 {
        return Err(IndexedBinaryCodecError::InvalidNode);
    }
    let octet = payload[0];
    let major = octet >> 5;
    let mut r = PayloadCursor { data: payload, pos: 1 };
    let len = match r.len(octet & 0x1f) {
        Some(l) => l,
        None => {
            return Err(IndexedBinaryCodecError::InvalidNode);
        },
    };
    let ghost p0 = r.pos as int;
    let node = if major == 0 {
        if len == 0 {
            match r.con() {
                Some(c) => RuntimeNode::Con(c),
                None => {
                    return Err(IndexedBinaryCodecError::InvalidNode);
                },
            }
        } else {
            match r.id(ct) {
                Some(id) => RuntimeNode::Con(ConCell::Ref(id)),
                None => {
                    return Err(IndexedBinaryCodecError::InvalidNode);
                },
            }
        }
    } else if major == 1 {
        match r.id(ct) {
            Some(id) => RuntimeNode::Val(id),
            None => {
                return Err(IndexedBinaryCodecError::InvalidNode);
            },
        }
    } else if major == 2 {
        match r.obj(ct, len) {
            Some(es) => RuntimeNode::Obj(es),
            None => {
                return Err(IndexedBinaryCodecError::InvalidNode);
            },
        }
    } else if major == 3 {
        match r.vec(ct, len) {
            Some(es) => RuntimeNode::Vec(es),
            None => {
                return Err(IndexedBinaryCodecError::InvalidNode);
            },
        }
    } else if major == 4 {
        match r.str_chunks(ct, len) {
            Some(a) => RuntimeNode::Str(a),
            None => {
                return Err(IndexedBinaryCodecError::InvalidNode);
            },
        }
    } else if major == 5 {
        match r.bin_chunks(ct, len) {
            Some(a) => RuntimeNode::Bin(a),
            None => {
                return Err(IndexedBinaryCodecError::InvalidNode);
            },
        }
    } else if major == 6 {
        match r.arr_chunks(ct, len) {
            Some(a) => RuntimeNode::Arr(a),
            None => {
                return Err(IndexedBinaryCodecError::InvalidNode);
            },
        }
    } else {
        return Err(IndexedBinaryCodecError::InvalidNode);
    };
    proof {
        assert(si_body(ct@, payload@, p0, major, len) matches Some((nd, e)) && e == r.pos
            && node.nv() == nd);
    }
    if r.pos != payload.len() {
        return Err(IndexedBinaryCodecError::InvalidNode);
    }
    Ok(node)
}

// ---------------------------------------------------------------------------
// Field names, the clock table field and the root field
// ---------------------------------------------------------------------------

/// The value of a base-36 digit (either case).
pub open spec fn digit36_value(c: char) -> Option<nat> {
    let n = c as int;
    if 48 <= n <= 57 {
        Some((n - 48) as nat)
    } else if 97 <= n <= 122 {
        Some((n - 87) as nat)
    } else if 65 <= n <= 90 {
        Some((n - 55) as nat)
    } else {
        None
    }
}

/// The number written by base-36 digits (zero for no digits); `None` when a
/// character is no digit.
pub open spec fn base36_value(s: Seq<char>) -> Option<nat>
    decreases s.len(),
{
    if s.len() == 0 {
        Some(0)
    } else {
        match (base36_value(s.drop_last()), digit36_value(s.last())) {
            (Some(a), Some(v)) => Some(a * 36 + v),
            _ => None,
        }
    }
}

/// The base-36 number of `s` where it fits in `u64`.
pub open spec fn base36_u64(s: Seq<char>) -> Option<u64> {
    match base36_value(s) {
        Some(v) => if v <= u64::MAX {
            Some(v as u64)
        } else {
            None
        },
        None => None,
    }
}

/// A prefix of digits is digits, and its number is no larger.
proof fn lemma_base36_prefix(s: Seq<char>, i: int)
    requires
        0 <= i <= s.len(),
    ensures
        base36_value(s.take(i)) is None ==> base36_value(s) is None,
        base36_value(s) matches Some(b) ==> (base36_value(s.take(i)) matches Some(a) && a <= b),
    decreases s.len(),
{
    if i < s.len() {
        lemma_base36_prefix(s.drop_last(), i);
        assert(s.drop_last().take(i) =~= s.take(i));
    } else {
        assert(s.take(i) =~= s);
    }
}

/// The base-36 number of the characters `lo..hi`, where it fits in `u64`.
fn base36_at(chars: &Vec<char>, lo: usize, hi: usize) -> (res: Option<u64>)
    requires
        lo <= hi <= chars@.len(),
    ensures
        res == base36_u64(chars@.subrange(lo as int, hi as int)),
{
    let ghost s = chars@.subrange(lo as int, hi as int);
    let mut acc: u64 = 0;
    let mut k: usize = lo;
    assert(chars@.subrange(lo as int, lo as int) =~= Seq::<char>::empty());
    while k < hi
        invariant
            lo <= k <= hi,
            hi <= chars@.len(),
            s == chars@.subrange(lo as int, hi as int),
            base36_value(chars@.subrange(lo as int, k as int)) == Some(acc as nat),
        decreases hi - k,
    {
        let c = chars[k];
        let v: u64 = if '0' <= c && c <= '9' {
            (c as u32 - 48) as u64
        } else if 'a' <= c && c <= 'z' {
            (c as u32 - 87) as u64
        } else if 'A' <= c && c <= 'Z' {
            (c as u32 - 55) as u64
        } else {
            proof {
                assert(chars@.subrange(lo as int, k + 1).drop_last() =~= chars@.subrange(lo as int, k as int));
                assert(s.take(k + 1 - lo) =~= chars@.subrange(lo as int, k + 1));
                lemma_base36_prefix(s, k + 1 - lo);
            }
            return None;
        };
        proof {
            assert(chars@.subrange(lo as int, k + 1).drop_last() =~= chars@.subrange(lo as int, k as int));
            assert(chars@.subrange(lo as int, k + 1).last() == c);
            assert(base36_value(chars@.subrange(lo as int, k + 1)) == Some((acc * 36 + v) as nat));
            assert(s.take(k + 1 - lo) =~= chars@.subrange(lo as int, k + 1));
            lemma_base36_prefix(s, k + 1 - lo);
        }
        if acc > (0xffff_ffff_ffff_ffffu64 - v) / 36 {
            assert(acc * 36 + v > u64::MAX) by (nonlinear_arith)
                requires
                    acc > (0xffff_ffff_ffff_ffffu64 - v) / 36,
                    v <= 35,
            ;
            return None;
        }
        assert(acc * 36 + v <= u64::MAX) by (nonlinear_arith)
            requires
                acc <= (0xffff_ffff_ffff_ffffu64 - v) / 36,
                v <= 35,
        ;
        acc = acc * 36 + v;
        k = k + 1;
    }
    assert(chars@.subrange(lo as int, hi as int) =~= s);
    Some(acc)
}

/// Reads a base-36 number (digits of either case; no digits read as zero).
pub fn from_base36(s: &str) -> (res: Option<u64>)
    ensures
        res == base36_u64(s@),
{
    let chars = crate::text::str_chars(s);
    assert(chars@.subrange(0, chars@.len() as int) =~= chars@);
    base36_at(&chars, 0, chars.len())
}

/// `i` is the position of the first underscore of `s`.
pub open spec fn first_us(s: Seq<char>, i: int) -> bool {
    &&& 0 <= i < s.len()
    &&& s[i] == '_'
    &&& forall|j: int| 0 <= j < i ==> s[j] != '_'
}

/// The identifier a field name stands for: the base-36 table index before
/// its first underscore and the base-36 time after it.
pub open spec fn field_id(ct: Seq<LogicalClockBase>, name: Seq<char>) -> Option<Timestamp> {
    if exists|i: int| first_us(name, i) {
        let i = choose|i: int| first_us(name, i);
        match (base36_u64(name.take(i)), base36_u64(name.skip(i + 1))) {
            (Some(x), Some(t)) => if x < ct.len() {
                Some(Timestamp { sid: ct[x as int].sid, time: t })
            } else {
                None
            },
            _ => None,
        }
    } else {
        None
    }
}

/// The identifier of a field name, its table index pointing into `ct`.
pub fn parse_field_id(field: &str, ct: &Vec<LogicalClockBase>) -> (res: Result<Timestamp, IndexedBinaryCodecError>)
    ensures
        match field_id(ct@, field@) {
            Some(t) => res == Ok::<Timestamp, IndexedBinaryCodecError>(t),
            None => res == Err::<Timestamp, IndexedBinaryCodecError>(IndexedBinaryCodecError::InvalidFields),
        },
{
    let chars = crate::text::str_chars(field);
    let mut i: usize = 0;
    while i < chars.len() && chars[i] != '_'
        invariant
            i <= chars@.len(),
            chars@ == field@,
            forall|j: int| 0 <= j < i ==> chars@[j] != '_',
        decreases chars.len() - i,
    {
        i = i + 1;
    }
    if i == chars.len() {
        assert(!exists|k: int| first_us(field@, k));
        return Err(IndexedBinaryCodecError::InvalidFields);
    }
    proof {
        assert(first_us(field@, i as int));
        let c = choose|k: int| first_us(field@, k);
        assert(c == i) by {
            if c < i {
                assert(field@[c] != '_');
            } else if c > i {
                assert(field@[i as int] != '_');
            }
        }
        assert(chars@.subrange(0, i as int) =~= field@.take(i as int));
        assert(chars@.subrange(i + 1, chars@.len() as int) =~= field@.skip(i + 1));
    }
    let x = match base36_at(&chars, 0, i) {
        Some(x) => x,
        None => {
            return Err(IndexedBinaryCodecError::InvalidFields);
        },
    };
    let t = match base36_at(&chars, i + 1, chars.len()) {
        Some(t) => t,
        None => {
            return Err(IndexedBinaryCodecError::InvalidFields);
        },
    };
    if x >= ct.len() as u64 {
        return Err(IndexedBinaryCodecError::InvalidFields);
    }
    Ok(Timestamp { sid: ct[x as usize].sid, time: t })
}

/// The clock table a `c` field holds: a nonzero `vu57` count, then a `vu57`
/// session id and time per entry, and nothing after them.
pub open spec fn si_clock(data: Seq<u8>) -> Option<Seq<LogicalClockBase>> {
    match spec_read_vu57(data, 0) {
        (None, _) => None,
        (Some(n), p) => if n == 0 {
            None
        } else {
            match sd_table_entries(data, p, n as nat) {
                Ok((t, e)) => if e == data.len() {
                    Some(t)
                } else {
                    None
                },
                Err(_) => None,
            }
        },
    }
}

/// Decodes the clock table field.
pub fn decode_clock_table(data: &[u8]) -> (res: Result<Vec<LogicalClockBase>, IndexedBinaryCodecError>)
    ensures
        match si_clock(data@) {
            Some(t) => res matches Ok(v) && v@ == t,
            None => res == Err::<Vec<LogicalClockBase>, IndexedBinaryCodecError>(IndexedBinaryCodecError::InvalidFields),
        },
{
    let mut pos: usize = 0;
    proof {
        crate::crdt_binary::lemma_read_vu57_pos(data@, 0);
    }
    let n = match read_vu57(data, &mut pos) {
        Some(n) => n,
        None => {
            return Err(IndexedBinaryCodecError::InvalidFields);
        },
    };
    if n == 0 {
        return Err(IndexedBinaryCodecError::InvalidFields);
    }
    let ghost p0 = pos as int;
    let mut table: Vec<LogicalClockBase> = Vec::new();
    let mut i: u64 = 0;
    while i < n
        invariant
            i <= n,
            pos <= data@.len(),
            spec_read_vu57(data@, 0) == (Some(n), p0),
            sd_table_entries(data@, p0, i as nat) == Ok::<(Seq<LogicalClockBase>, int), ModelError>((table@, pos as int)),
        decreases n - i,
    {
        proof {
            crate::crdt_binary::lemma_read_vu57_pos(data@, pos as int);
        }
        let sid = match read_vu57(data, &mut pos) {
            Some(v) => v,
            None => {
                proof {
                    lemma_table_err(data@, p0, (i + 1) as nat, n as nat);
                }
                return Err(IndexedBinaryCodecError::InvalidFields);
            },
        };
        proof {
            crate::crdt_binary::lemma_read_vu57_pos(data@, pos as int);
        }
        let time = match read_vu57(data, &mut pos) {
            Some(v) => v,
            None => {
                proof {
                    lemma_table_err(data@, p0, (i + 1) as nat, n as nat);
                }
                return Err(IndexedBinaryCodecError::InvalidFields);
            },
        };
        table.push(LogicalClockBase { sid, time });
        i = i + 1;
    }
    if pos != data.len() {
        return Err(IndexedBinaryCodecError::InvalidFields);
    }
    Ok(table)
}

/// The identifier an `r` field holds: one byte below 0x80 (bytes after it
/// are not read), else a long identifier spanning the whole field.
pub open spec fn si_root(ct: Seq<LogicalClockBase>, data: Seq<u8>) -> Option<Timestamp> {
    match si_id(ct, data, 0) {
        Some((t, p)) => if data[0] <= 0x7f || p == data.len() {
            Some(t)
        } else {
            None
        },
        None => None,
    }
}

/// Decodes the root field.
pub fn decode_indexed_id(data: &[u8], ct: &Vec<LogicalClockBase>) -> (res: Result<Timestamp, IndexedBinaryCodecError>)
    ensures
        match si_root(ct@, data@) {
            Some(t) => res == Ok::<Timestamp, IndexedBinaryCodecError>(t),
            None => res == Err::<Timestamp, IndexedBinaryCodecError>(IndexedBinaryCodecError::InvalidFields),
        },
{
    let mut r = PayloadCursor { data, pos: 0 };
    match r.id(ct) {
        Some(t) => {
            if data[0] <= 0x7f || r.pos == data.len() {
                Ok(t)
            } else {
                Err(IndexedBinaryCodecError::InvalidFields)
            }
        },
        None => Err(IndexedBinaryCodecError::InvalidFields),
    }
}

// ---------------------------------------------------------------------------
// The model binary of a set of fields
// ---------------------------------------------------------------------------

/// The payload of the first field named `name`.
pub open spec fn field_get(f: Seq<(Seq<char>, Seq<u8>)>, name: Seq<char>) -> Option<Seq<u8>>
    decreases f.len(),
{
    if f.len() == 0 {
        None
    } else if f[0].0 == name {
        Some(f[0].1)
    } else {
        field_get(f.skip(1), name)
    }
}

/// The payload of the first field named `name`.
fn find_field<'a>(fields: &'a Vec<(String, Vec<u8>)>, name: &str) -> (res: Option<&'a Vec<u8>>)
    ensures
        match res {
            Some(v) => field_get(fields_view(fields@), name@) == Some(v@),
            None => field_get(fields_view(fields@), name@) is None,
        },
{
    let ghost fv = fields_view(fields@);
    let mut i: usize = 0;
    assert(fv.skip(0) =~= fv);
    while i < fields.len()
        invariant
            i <= fields@.len(),
            fv == fields_view(fields@),
            field_get(fv, name@) == field_get(fv.skip(i as int), name@),
        decreases fields.len() - i,
    {
        let ghost rest = fv.skip(i as int);
        assert(rest[0] == (fields@[i as int].0@, fields@[i as int].1@));
        if text_is(&fields[i].0, name) {
            return Some(&fields[i].1);
        }
        assert(rest.skip(1) =~= fv.skip(i + 1));
        i = i + 1;
    }
    None
}

/// The outcome of reading node fields: the nodes, or a failure.
pub enum NodesDec {
    Done(Seq<(Timestamp, NodeV)>),
    Fail(IndexedBinaryCodecError),
}

/// Whether a field is the clock table field or the root field.
pub open spec fn is_meta_field(name: Seq<char>) -> bool {
    name == "c"@ || name == "r"@
}

/// The nodes of the first `k` fields, each node field putting its node under
/// its identifier (replacing one put before under it).
pub open spec fn si_nodes(ct: Seq<LogicalClockBase>, f: Seq<(Seq<char>, Seq<u8>)>, k: nat) -> NodesDec
    decreases k,
{
    if k == 0 {
        NodesDec::Done(Seq::empty())
    } else {
        match si_nodes(ct, f, (k - 1) as nat) {
            NodesDec::Fail(e) => NodesDec::Fail(e),
            NodesDec::Done(s) => if is_meta_field(f[k - 1].0) {
                NodesDec::Done(s)
            } else {
                match field_id(ct, f[k - 1].0) {
                    None => NodesDec::Fail(IndexedBinaryCodecError::InvalidFields),
                    Some(id) => match si_payload(ct, f[k - 1].1) {
                        None => NodesDec::Fail(IndexedBinaryCodecError::InvalidNode),
                        Some(n) => NodesDec::Done(put_node(s, id, n)),
                    },
                }
            },
        }
    }
}

/// The outcome of reading a set of fields: the nodes, root and clock table,
/// or a failure.
pub enum FieldsDec {
    Graph(Seq<(Timestamp, NodeV)>, Option<Timestamp>, Seq<LogicalClockBase>),
    Fail(IndexedBinaryCodecError),
}

/// What a set of fields describes: the clock table of the first `c` field,
/// the root of the first `r` field (none without one), and the nodes of the
/// other fields.
pub open spec fn si_fields(f: Seq<(Seq<char>, Seq<u8>)>) -> FieldsDec {
    match field_get(f, "c"@) {
        None => FieldsDec::Fail(IndexedBinaryCodecError::InvalidFields),
        Some(c) => match si_clock(c) {
            None => FieldsDec::Fail(IndexedBinaryCodecError::InvalidFields),
            Some(ct) => {
                let root = match field_get(f, "r"@) {
                    Some(r) => match si_root(ct, r) {
                        Some(t) => Ok(Some(t)),
                        None => Err(()),
                    },
                    None => Ok(None),
                };
                match root {
                    Err(_) => FieldsDec::Fail(IndexedBinaryCodecError::InvalidFields),
                    Ok(root) => match si_nodes(ct, f, f.len()) {
                        NodesDec::Done(nodes) => FieldsDec::Graph(nodes, root, ct),
                        NodesDec::Fail(e) => FieldsDec::Fail(e),
                    },
                }
            },
        }
    }
}

/// What the model binary of a graph gives: its bytes, its failure, or, where
/// writing it would never end, the refusal of the fields.
#[verifier::opaque]
pub open spec fn binary_result(
    nodes: Seq<(Timestamp, NodeV)>,
    root: Option<Timestamp>,
    ct: Seq<LogicalClockBase>,
    res: Result<Vec<u8>, IndexedBinaryCodecError>,
) -> bool {
    match logical_binary(nodes, root, ct, Set::empty()) {
        ModelBin::Bytes(b) => res matches Ok(v) && v@ == b,
        ModelBin::Fail(e) => res == Err::<Vec<u8>, IndexedBinaryCodecError>(IndexedBinaryCodecError::Model(e)),
        ModelBin::Stuck => res == Err::<Vec<u8>, IndexedBinaryCodecError>(IndexedBinaryCodecError::InvalidFields),
    }
}

/// What decoding a set of fields owes its description: the model binary of
/// the described graph, or the described failure.
pub open spec fn fields_result_ok(f: Seq<(Seq<char>, Seq<u8>)>, res: Result<Vec<u8>, IndexedBinaryCodecError>) -> bool {
    match si_fields(f) {
        FieldsDec::Fail(e) => res == Err::<Vec<u8>, IndexedBinaryCodecError>(e),
        FieldsDec::Graph(nodes, root, ct) => binary_result(nodes, root, ct, res),
    }
}

/// A failure of node fields stays the outcome.
proof fn lemma_nodes_fail(ct: Seq<LogicalClockBase>, f: Seq<(Seq<char>, Seq<u8>)>, i: nat, n: nat)
    requires
        i <= n,
        si_nodes(ct, f, i) is Fail,
    ensures
        si_nodes(ct, f, n) == si_nodes(ct, f, i),
    decreases n,
{
    if n > i {
        lemma_nodes_fail(ct, f, i, (n - 1) as nat);
    }
}

/// The nodes of the node fields (see `si_nodes`).
fn decode_nodes(fields: &Vec<(String, Vec<u8>)>, ct: &Vec<LogicalClockBase>) -> (res: Result<Vec<(Timestamp, RuntimeNode)>, IndexedBinaryCodecError>)
    ensures
        match si_nodes(ct@, fields_view(fields@), fields@.len()) {
            NodesDec::Done(desc) => res matches Ok(ns) && store_view(ns@) == desc,
            NodesDec::Fail(e) => res == Err::<Vec<(Timestamp, RuntimeNode)>, IndexedBinaryCodecError>(e),
        },
{
    let ghost fv = fields_view(fields@);
    let mut nodes: Vec<(Timestamp, RuntimeNode)> = Vec::new();
    let ghost mut desc: Seq<(Timestamp, NodeV)> = Seq::empty();
    assert(store_view(nodes@) =~= Seq::<(Timestamp, NodeV)>::empty());
    let mut i: usize = 0;
    while i < fields.len()
        invariant
            i <= fields@.len(),
            fv == fields_view(fields@),
            fv.len() == fields@.len(),
            si_nodes(ct@, fv, i as nat) == NodesDec::Done(desc),
            store_view(nodes@) == desc,
        decreases fields.len() - i,
    {
        assert(fv[i as int] == (fields@[i as int].0@, fields@[i as int].1@));
        if text_is(&fields[i].0, "c") || text_is(&fields[i].0, "r") {
            assert(si_nodes(ct@, fv, (i + 1) as nat) == NodesDec::Done(desc));
            i = i + 1;
            continue;
        }
        assert(!is_meta_field(fv[i as int].0));
        let id = match parse_field_id(fields[i].0.as_str(), &ct) {
            Ok(id) => id,
            Err(e) => {
                proof {
                    assert(si_nodes(ct@, fv, (i + 1) as nat) == NodesDec::Fail(IndexedBinaryCodecError::InvalidFields));
                    lemma_nodes_fail(ct@, fv, (i + 1) as nat, fv.len());
                }
                return Err(e);
            },
        };
        let node = match decode_node_payload(fields[i].1.as_slice(), &ct) {
            Ok(node) => node,
            Err(e) => {
                proof {
                    assert(si_nodes(ct@, fv, (i + 1) as nat) == NodesDec::Fail(IndexedBinaryCodecError::InvalidNode));
                    lemma_nodes_fail(ct@, fv, (i + 1) as nat, fv.len());
                }
                return Err(e);
            },
        };
        proof {
            desc = put_node(desc, id, node.nv());
        }
        store_put(&mut nodes, id, node);
        i = i + 1;
    }
    Ok(nodes)
}

/// The model binary of the graph (see `binary_result`).
fn binary_of(nodes: Vec<(Timestamp, RuntimeNode)>, root: Option<Timestamp>, ct: Vec<LogicalClockBase>) -> (res: Result<Vec<u8>, IndexedBinaryCodecError>)
    ensures
        binary_result(store_view(nodes@), root, ct@, res),
{
    proof {
        reveal(binary_result);
    }
    let model = RuntimeModel::from_parts(nodes, root, ct);
    match model.model_binary_checked() {
        Some(Ok(b)) => Ok(b),
        Some(Err(e)) => Err(IndexedBinaryCodecError::Model(e)),
        None => Err(IndexedBinaryCodecError::InvalidFields),
    }
}

/// Decodes the fields of the indexed form into a model binary. Fields named
/// `c` and `r` hold the clock table and the root; each other field is a node.
pub fn decode_fields_to_model_binary(fields: &Vec<(String, Vec<u8>)>) -> (res: Result<Vec<u8>, IndexedBinaryCodecError>)
    ensures
        fields_result_ok(fields_view(fields@), res),
{
    let c = match find_field(fields, "c") {
        Some(c) => c,
        None => {
            return Err(IndexedBinaryCodecError::InvalidFields);
        },
    };
    let ct = match decode_clock_table(c.as_slice()) {
        Ok(ct) => ct,
        Err(e) => {
            return Err(e);
        },
    };
    let root = match find_field(fields, "r") {
        Some(r) => match decode_indexed_id(r.as_slice(), &ct) {
            Ok(t) => Some(t),
            Err(e) => {
                return Err(e);
            },
        },
        None => None,
    };
    let nodes = match decode_nodes(fields, &ct) {
        Ok(nodes) => nodes,
        Err(e) => {
            return Err(e);
        },
    };
    let ghost ns = store_view(nodes@);
    let ghost ctv = ct@;
    let res = binary_of(nodes, root, ct);
    proof {
        let f = fields_view(fields@);
        let d = si_nodes(ctv, f, f.len());
        assert(d is Done);
        assert(si_fields(f) == FieldsDec::Graph(d->Done_0, root, ctv));
    }
    res
}

} // verus!
