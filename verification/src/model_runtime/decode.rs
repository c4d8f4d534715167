//! Decoding a model binary into the runtime graph.
//!
//! A logical-clock model starts with the big-endian length of its node tree,
//! then the tree, then the clock table (`vu57` count, then `vu57` session id
//! and time per entry); identifiers in the tree are relative to the table. A
//! server-clock model starts with a byte whose high bit is set, then the
//! server time (`vu57`), then the tree; its identifiers are times of session 1.
//!
//! Each node is an identifier and an octet whose high three bits give its
//! kind (constant, register, object, vector, string, binary, array) and low
//! five bits its length (31 meaning that a `vu57` length follows). String,
//! binary and array nodes hold chunks: an identifier, then either their items
//! or, for deleted chunks, their length. Slot times of a chunk count up from
//! its identifier's time and wrap around at 2^64, as in a release build.

use vstd::prelude::*;
use crate::cbor::{cbor_item, cbor_json, cbor_read_one, cbor_to_json, int_to_json, spec_int_to_json, CborHead, CborRead};
use crate::crdt_binary::{read_b1vu56, read_vu57, spec_read_b1vu56, spec_read_vu57, be_u32, LogicalClockBase};
use crate::json::{JsonValue, JsonView};
use crate::model::ModelError;
use crate::patch::Timestamp;
use super::types::{
    ConCell, ConCellV, RuntimeNode, NodeV, StrAtom, BinAtom, ArrAtom, store_view, has_node, set_node,
    pos_of, lemma_pos_of, obj_entries_view, str_atoms_view, bin_atoms_view, arr_atoms_view,
};

verus! {

/// How identifiers are encoded: as server times, or relative to a clock
/// table.
pub struct IdCtx {
    pub server: bool,
    pub table: Seq<LogicalClockBase>,
}

/// The state of a decoding: the nodes so far, the position, and a mark for a
/// constant left open, which no step sets (`lemma_graph_settled`).
pub struct DecSt {
    pub nodes: Seq<(Timestamp, NodeV)>,
    pub pos: int,
    pub other: bool,
}

/// The outcome of a decoding step: a value and the state after it, or a
/// failure (with the mark).
pub enum Dec<T> {
    Done(T, DecSt),
    Fail(ModelError, bool),
}

/// A `vu57` at `pos`.
pub open spec fn sd_vu57(data: Seq<u8>, pos: int) -> Result<(u64, int), ModelError> {
    match spec_read_vu57(data, pos) {
        (Some(v), p) => Ok((v, p)),
        (None, _) => Err(ModelError::InvalidModelBinary),
    }
}

/// The identifier `diff` ticks before the clock of table entry `idx` (1-based;
/// 0 means session 0).
pub open spec fn sd_rel_id(table: Seq<LogicalClockBase>, idx: int, diff: u64) -> Result<Timestamp, ModelError> {
    if idx == 0 {
        Ok(Timestamp { sid: 0, time: diff })
    } else if idx - 1 >= table.len() {
        Err(ModelError::InvalidClockTable)
    } else if table[idx - 1].time < diff {
        Err(ModelError::InvalidClockTable)
    } else {
        Ok(Timestamp { sid: table[idx - 1].sid, time: (table[idx - 1].time - diff) as u64 })
    }
}

/// An identifier at `pos`: a server time, or a table index and difference
/// (in one byte below 0x80, else a `b1vu56` index then a `vu57` difference).
pub open spec fn sd_id(data: Seq<u8>, pos: int, c: IdCtx) -> Result<(Timestamp, int), ModelError> {
    if c.server {
        match sd_vu57(data, pos) {
            Ok((t, p)) => Ok((Timestamp { sid: 1, time: t }, p)),
            Err(e) => Err(e),
        }
    } else if pos < 0 || pos >= data.len() {
        Err(ModelError::InvalidModelBinary)
    } else if data[pos] <= 0x7f {
        match sd_rel_id(c.table, (data[pos] >> 4u8) as int, (data[pos] & 0x0fu8) as u64) {
            Ok(id) => Ok((id, pos + 1)),
            Err(e) => Err(e),
        }
    } else {
        match spec_read_b1vu56(data, pos) {
            (Some((_, idx)), p) => match sd_vu57(data, p) {
                Ok((diff, p2)) => match sd_rel_id(c.table, idx as int, diff) {
                    Ok(id) => Ok((id, p2)),
                    Err(e) => Err(e),
                },
                Err(e) => Err(e),
            },
            (None, _) => Err(ModelError::InvalidModelBinary),
        }
    }
}

/// A node length: `minor` itself, or a `vu57` at `pos` when it is 31.
pub open spec fn sd_len(data: Seq<u8>, pos: int, minor: u8) -> Result<(u64, int), ModelError> {
    if minor != 31 {
        Ok((minor as u64, pos))
    } else {
        sd_vu57(data, pos)
    }
}

/// The CBOR item at `pos`: its head and the position after it.
pub open spec fn sd_cbor(data: Seq<u8>, pos: int) -> Option<(CborHead, int)> {
    match cbor_item(data.subrange(pos, data.len() as int)) {
        Some((h, n)) => Some((h, pos + n)),
        None => None,
    }
}

/// The store with node `n` under `id`: replacing the node held under `id`,
/// else added at the end.
pub open spec fn put_node(s: Seq<(Timestamp, NodeV)>, id: Timestamp, n: NodeV) -> Seq<(Timestamp, NodeV)> {
    if has_node(s, id) {
        set_node(s, id, n)
    } else {
        s.push((id, n))
    }
}

/// The slot of the `i`-th item of a chunk with identifier `id`; times wrap
/// around at 2^64.
pub open spec fn chunk_slot(id: Timestamp, i: int) -> Timestamp {
    Timestamp {
        sid: id.sid,
        time: if id.time + i > u64::MAX {
            (id.time + i - 0x1_0000_0000_0000_0000int) as u64
        } else {
            (id.time + i) as u64
        },
    }
}

/// The slots of a chunk holding `items`.
pub open spec fn chunk_atoms<T>(id: Timestamp, items: Seq<T>) -> Seq<(Timestamp, Option<T>)> {
    Seq::new(items.len(), |i: int| (chunk_slot(id, i), Some(items[i])))
}

/// The slots of a deleted chunk of `n` items.
pub open spec fn deleted_atoms<T>(id: Timestamp, n: nat) -> Seq<(Timestamp, Option<T>)> {
    Seq::new(n, |i: int| (chunk_slot(id, i), None::<T>))
}

/// The content of a constant whose CBOR item is at `pos`.
pub open spec fn sd_con(data: Seq<u8>, pos: int) -> Result<(ConCellV, int, bool), ModelError> {
    match sd_cbor(data, pos) {
        None => Err(ModelError::InvalidModelBinary),
        Some((CborHead::Text(t), p)) => Ok((ConCellV::Json(JsonView::String(t)), p, false)),
        Some((CborHead::Integer(i), p)) => match spec_int_to_json(i) {
            Some(n) => Ok((ConCellV::Json(JsonView::Number(n)), p, false)),
            None => Err(ModelError::InvalidModelBinary),
        },
        Some((CborHead::Other(v), p)) => match cbor_json(v, 257) {
            Some(j) => Ok((ConCellV::Json(j), p, false)),
            None => Err(ModelError::InvalidModelBinary),
        },
    }
}

/// The state `st` moved to `pos`, with `n` put under `id`.
pub open spec fn st_put(st: DecSt, id: Timestamp, n: NodeV) -> DecSt {
    DecSt { nodes: put_node(st.nodes, id, n), pos: st.pos, other: st.other }
}

/// The node at `st.pos`, its subtree going at most `fuel` levels deep:
/// its identifier, and the state with the subtree's nodes put (children
/// before their parent).
pub open spec fn sd_node(data: Seq<u8>, st: DecSt, c: IdCtx, fuel: nat) -> Dec<Timestamp>
    decreases fuel, 0nat, 0nat,
{
    if fuel == 0 {
        Dec::Fail(ModelError::InvalidModelBinary, st.other)
    } else {
        match sd_id(data, st.pos, c) {
            Err(e) => Dec::Fail(e, st.other),
            Ok((id, p1)) => if p1 < 0 || p1 >= data.len() {
                Dec::Fail(ModelError::InvalidModelBinary, st.other)
            } else {
                sd_body(data, DecSt { nodes: st.nodes, pos: p1 + 1, other: st.other }, c, (fuel - 1) as nat, id, data[p1])
            },
        }
    }
}

/// The content of a constant after its octet with low bits `minor`: a CBOR
/// item when they are zero, else a reference identifier; the position after
/// it, and whether the constant is left open.
pub open spec fn sd_con_body(data: Seq<u8>, pos: int, c: IdCtx, minor: u8) -> Result<(ConCellV, int, bool), ModelError> {
    if minor == 0 {
        sd_con(data, pos)
    } else {
        match sd_id(data, pos, c) {
            Ok((rid, p)) => Ok((ConCellV::Ref(rid), p, false)),
            Err(e) => Err(e),
        }
    }
}

/// The rest of node `id` after its octet `oct`, at `st.pos`.
pub open spec fn sd_body(data: Seq<u8>, st: DecSt, c: IdCtx, fuel: nat, id: Timestamp, oct: u8) -> Dec<Timestamp>
    decreases fuel, 4nat, 0nat,
{
    let major = oct >> 5u8;
    let minor = oct & 0x1fu8;
    if major == 0 {
        match sd_con_body(data, st.pos, c, minor) {
            Err(e) => Dec::Fail(e, st.other),
            Ok((cell, p, o)) => Dec::Done(
                id,
                DecSt { nodes: put_node(st.nodes, id, NodeV::Con(cell)), pos: p, other: st.other || o },
            ),
        }
    } else if major == 1 {
        match sd_node(data, st, c, fuel) {
            Dec::Done(child, st3) => Dec::Done(id, st_put(st3, id, NodeV::Val(child))),
            Dec::Fail(e, o) => Dec::Fail(e, o),
        }
    } else if major <= 6 {
        match sd_len(data, st.pos, minor) {
            Err(e) => Dec::Fail(e, st.other),
            Ok((n, p3)) => sd_kids(data, DecSt { nodes: st.nodes, pos: p3, other: st.other }, c, fuel, id, major, n),
        }
    } else {
        Dec::Fail(ModelError::InvalidModelBinary, st.other)
    }
}

/// The `n` items of container node `id` of kind `major` (2 to 6), at
/// `st.pos`, with the node put after them.
pub open spec fn sd_kids(data: Seq<u8>, st: DecSt, c: IdCtx, fuel: nat, id: Timestamp, major: u8, n: u64) -> Dec<Timestamp>
    decreases fuel, 3nat, 0nat,
{
    if major == 2 {
        match sd_obj(data, st, c, fuel, n as nat) {
            Dec::Done(es, st4) => Dec::Done(id, st_put(st4, id, NodeV::Obj(es))),
            Dec::Fail(e, o) => Dec::Fail(e, o),
        }
    } else if major == 3 {
        match sd_vec(data, st, c, fuel, n as nat) {
            Dec::Done(es, st4) => Dec::Done(id, st_put(st4, id, NodeV::Vec(es))),
            Dec::Fail(e, o) => Dec::Fail(e, o),
        }
    } else if major == 4 {
        match sd_str(data, st, c, n as nat) {
            Dec::Done(atoms, st4) => Dec::Done(id, st_put(st4, id, NodeV::Str(atoms))),
            Dec::Fail(e, o) => Dec::Fail(e, o),
        }
    } else if major == 5 {
        match sd_bin(data, st, c, n as nat) {
            Dec::Done(atoms, st4) => Dec::Done(id, st_put(st4, id, NodeV::Bin(atoms))),
            Dec::Fail(e, o) => Dec::Fail(e, o),
        }
    } else {
        match sd_arr(data, st, c, fuel, n as nat) {
            Dec::Done(atoms, st4) => Dec::Done(id, st_put(st4, id, NodeV::Arr(atoms))),
            Dec::Fail(e, o) => Dec::Fail(e, o),
        }
    }
}

/// `k` object entries: a CBOR text key and a node each.
pub open spec fn sd_obj(data: Seq<u8>, st: DecSt, c: IdCtx, fuel: nat, k: nat) -> Dec<Seq<(Seq<char>, Timestamp)>>
    decreases fuel, 1nat, k,
{
    if k == 0 {
        Dec::Done(Seq::empty(), st)
    } else {
        match sd_obj(data, st, c, fuel, (k - 1) as nat) {
            Dec::Fail(e, o) => Dec::Fail(e, o),
            Dec::Done(es, st1) => match sd_cbor(data, st1.pos) {
                Some((CborHead::Text(key), p)) => match sd_node(data, DecSt { nodes: st1.nodes, pos: p, other: st1.other }, c, fuel) {
                    Dec::Done(child, st2) => Dec::Done(es.push((key, child)), st2),
                    Dec::Fail(e, o) => Dec::Fail(e, o),
                },
                _ => Dec::Fail(ModelError::InvalidModelBinary, st1.other),
            },
        }
    }
}

/// `k` vector slots: a zero byte for an empty slot, else a node; the
/// entries of the filled slots, by index.
pub open spec fn sd_vec(data: Seq<u8>, st: DecSt, c: IdCtx, fuel: nat, k: nat) -> Dec<Seq<(u64, Timestamp)>>
    decreases fuel, 1nat, k,
{
    if k == 0 {
        Dec::Done(Seq::empty(), st)
    } else {
        match sd_vec(data, st, c, fuel, (k - 1) as nat) {
            Dec::Fail(e, o) => Dec::Fail(e, o),
            Dec::Done(es, st1) => if st1.pos < 0 || st1.pos >= data.len() {
                Dec::Fail(ModelError::InvalidModelBinary, st1.other)
            } else if data[st1.pos] == 0 {
                Dec::Done(es, DecSt { nodes: st1.nodes, pos: st1.pos + 1, other: st1.other })
            } else {
                match sd_node(data, st1, c, fuel) {
                    Dec::Done(child, st2) => Dec::Done(es.push((((k - 1) as nat) as u64, child)), st2),
                    Dec::Fail(e, o) => Dec::Fail(e, o),
                }
            },
        }
    }
}

/// `k` string chunks: an identifier, then a CBOR text (live characters) or
/// a CBOR integer (the length of a deleted run).
pub open spec fn sd_str(data: Seq<u8>, st: DecSt, c: IdCtx, k: nat) -> Dec<Seq<(Timestamp, Option<char>)>>
    decreases k,
{
    if k == 0 {
        Dec::Done(Seq::empty(), st)
    } else {
        match sd_str(data, st, c, (k - 1) as nat) {
            Dec::Fail(e, o) => Dec::Fail(e, o),
            Dec::Done(atoms, st1) => match sd_id(data, st1.pos, c) {
                Err(e) => Dec::Fail(e, st1.other),
                Ok((id, p)) => match sd_cbor(data, p) {
                    Some((CborHead::Text(t), p2)) => Dec::Done(
                        atoms + chunk_atoms(id, t),
                        DecSt { nodes: st1.nodes, pos: p2, other: st1.other },
                    ),
                    Some((CborHead::Integer(i), p2)) => if 0 <= i <= u64::MAX {
                        Dec::Done(
                            atoms + deleted_atoms::<char>(id, i as nat),
                            DecSt { nodes: st1.nodes, pos: p2, other: st1.other },
                        )
                    } else {
                        Dec::Fail(ModelError::InvalidModelBinary, st1.other)
                    },
                    _ => Dec::Fail(ModelError::InvalidModelBinary, st1.other),
                },
            },
        }
    }
}

/// `k` binary chunks: an identifier, then a `b1vu56` whose flag marks a
/// deleted run and whose value is the length, then the bytes of a live run.
pub open spec fn sd_bin(data: Seq<u8>, st: DecSt, c: IdCtx, k: nat) -> Dec<Seq<(Timestamp, Option<u8>)>>
    decreases k,
{
    if k == 0 {
        Dec::Done(Seq::empty(), st)
    } else {
        match sd_bin(data, st, c, (k - 1) as nat) {
            Dec::Fail(e, o) => Dec::Fail(e, o),
            Dec::Done(atoms, st1) => match sd_id(data, st1.pos, c) {
                Err(e) => Dec::Fail(e, st1.other),
                Ok((id, p)) => match spec_read_b1vu56(data, p) {
                    (None, _) => Dec::Fail(ModelError::InvalidModelBinary, st1.other),
                    (Some((deleted, span)), p2) => if deleted == 1 {
                        Dec::Done(
                            atoms + deleted_atoms::<u8>(id, span as nat),
                            DecSt { nodes: st1.nodes, pos: p2, other: st1.other },
                        )
                    } else if p2 + span > data.len() {
                        Dec::Fail(ModelError::InvalidModelBinary, st1.other)
                    } else {
                        Dec::Done(
                            atoms + chunk_atoms(id, data.subrange(p2, p2 + span)),
                            DecSt { nodes: st1.nodes, pos: p2 + span, other: st1.other },
                        )
                    },
                },
            },
        }
    }
}

/// `k` array chunks: an identifier, then a `b1vu56` whose flag marks a
/// deleted run and whose value is the length, then the nodes of a live run.
pub open spec fn sd_arr(data: Seq<u8>, st: DecSt, c: IdCtx, fuel: nat, k: nat) -> Dec<Seq<(Timestamp, Option<Timestamp>)>>
    decreases fuel, 2nat, k,
{
    if k == 0 {
        Dec::Done(Seq::empty(), st)
    } else {
        match sd_arr(data, st, c, fuel, (k - 1) as nat) {
            Dec::Fail(e, o) => Dec::Fail(e, o),
            Dec::Done(atoms, st1) => match sd_id(data, st1.pos, c) {
                Err(e) => Dec::Fail(e, st1.other),
                Ok((id, p)) => match spec_read_b1vu56(data, p) {
                    (None, _) => Dec::Fail(ModelError::InvalidModelBinary, st1.other),
                    (Some((deleted, span)), p2) => if deleted == 1 {
                        Dec::Done(
                            atoms + deleted_atoms::<Timestamp>(id, span as nat),
                            DecSt { nodes: st1.nodes, pos: p2, other: st1.other },
                        )
                    } else {
                        match sd_arr_items(data, DecSt { nodes: st1.nodes, pos: p2, other: st1.other }, c, fuel, id, span as nat) {
                            Dec::Done(items, st2) => Dec::Done(atoms + items, st2),
                            Dec::Fail(e, o) => Dec::Fail(e, o),
                        }
                    },
                },
            },
        }
    }
}

/// The first `n` nodes of a live array chunk with identifier `id`.
pub open spec fn sd_arr_items(data: Seq<u8>, st: DecSt, c: IdCtx, fuel: nat, id: Timestamp, n: nat) -> Dec<Seq<(Timestamp, Option<Timestamp>)>>
    decreases fuel, 1nat, n,
{
    if n == 0 {
        Dec::Done(Seq::empty(), st)
    } else {
        match sd_arr_items(data, st, c, fuel, id, (n - 1) as nat) {
            Dec::Fail(e, o) => Dec::Fail(e, o),
            Dec::Done(items, st1) => match sd_node(data, st1, c, fuel) {
                Dec::Done(child, st2) => Dec::Done(items.push((chunk_slot(id, n - 1), Some(child))), st2),
                Dec::Fail(e, o) => Dec::Fail(e, o),
            },
        }
    }
}

/// The root at `st.pos`: a zero byte for none, else a node.
pub open spec fn sd_root(data: Seq<u8>, st: DecSt, c: IdCtx) -> Dec<Option<Timestamp>> {
    if st.pos < 0 || st.pos >= data.len() {
        Dec::Fail(ModelError::InvalidModelBinary, st.other)
    } else if data[st.pos] == 0 {
        Dec::Done(None, DecSt { nodes: st.nodes, pos: st.pos + 1, other: st.other })
    } else {
        match sd_node(data, st, c, (data.len() + 1) as nat) {
            Dec::Done(id, st1) => Dec::Done(Some(id), st1),
            Dec::Fail(e, o) => Dec::Fail(e, o),
        }
    }
}


// ---------------------------------------------------------------------------
// Agreement of decoded nodes with their description
// ---------------------------------------------------------------------------

/// A decoded node agrees with its description: equal, or a JSON constant
/// where the description leaves the constant open.
pub open spec fn node_agrees(a: NodeV, d: NodeV) -> bool {
    a == d
}

/// A decoded store agrees with its description entry by entry.
pub open spec fn store_agrees(a: Seq<(Timestamp, NodeV)>, d: Seq<(Timestamp, NodeV)>) -> bool {
    &&& a.len() == d.len()
    &&& forall|i: int| #![trigger a[i]] 0 <= i < a.len() ==> a[i].0 == d[i].0 && node_agrees(a[i].1, d[i].1)
}

/// Whether a decoding outcome met a constant left open.
pub open spec fn dec_flag<T>(d: Dec<T>) -> bool {
    match d {
        Dec::Done(_, st) => st.other,
        Dec::Fail(_, o) => o,
    }
}

/// An error `e2` is an outcome the description allows: its own failure, or
/// (once a constant left open was met) the refusal of such a constant.
pub open spec fn err_ok<T>(d: Dec<T>, e2: ModelError) -> bool {
    match d {
        Dec::Done(_, st) => st.other && e2 == ModelError::InvalidModelBinary,
        Dec::Fail(e, o) => e2 == e || (o && e2 == ModelError::InvalidModelBinary),
    }
}

proof fn lemma_agrees_pos(a: Seq<(Timestamp, NodeV)>, d: Seq<(Timestamp, NodeV)>, k: Timestamp)
    requires
        store_agrees(a, d),
    ensures
        pos_of(a, k) == pos_of(d, k),
        has_node(a, k) == has_node(d, k),
{
    assert forall|j: int| 0 <= j < a.len() implies a[j].0 == d[j].0 by {
        assert(a[j].0 == d[j].0);
    }
    super::types::lemma_pos_of_same_keys(a, d, k);
}

pub(crate) proof fn lemma_agrees_put(a: Seq<(Timestamp, NodeV)>, d: Seq<(Timestamp, NodeV)>, k: Timestamp, na: NodeV, nd: NodeV)
    requires
        store_agrees(a, d),
        node_agrees(na, nd),
    ensures
        store_agrees(put_node(a, k, na), put_node(d, k, nd)),
{
    lemma_agrees_pos(a, d, k);
    lemma_pos_of(a, k);
    let a2 = put_node(a, k, na);
    let d2 = put_node(d, k, nd);
    assert(a2.len() == d2.len());
    assert forall|i: int| #![trigger a2[i]] 0 <= i < a2.len() implies a2[i].0 == d2[i].0 && node_agrees(a2[i].1, d2[i].1) by {
        if has_node(a, k) {
            if i == pos_of(a, k) {
                assert(a2[i] == (k, na) && d2[i] == (k, nd));
            } else {
                assert(a2[i] == a[i] && d2[i] == d[i]);
            }
        } else if i < a.len() {
            assert(a2[i] == a[i] && d2[i] == d[i]);
        } else {
            assert(a2[i] == (k, na) && d2[i] == (k, nd));
        }
    }
}

/// Once a constant left open was met, every later outcome carries the mark.
proof fn lemma_mono_node(data: Seq<u8>, st: DecSt, c: IdCtx, fuel: nat)
    requires
        st.other,
    ensures
        dec_flag(sd_node(data, st, c, fuel)),
    decreases fuel, 0nat, 0nat,
{
    if fuel > 0 {
        if let Ok((id, p1)) = sd_id(data, st.pos, c) {
            if 0 <= p1 < data.len() {
                lemma_mono_body(data, DecSt { nodes: st.nodes, pos: p1 + 1, other: st.other }, c, (fuel - 1) as nat, id, data[p1]);
            }
        }
    }
}

proof fn lemma_mono_body(data: Seq<u8>, st: DecSt, c: IdCtx, fuel: nat, id: Timestamp, oct: u8)
    requires
        st.other,
    ensures
        dec_flag(sd_body(data, st, c, fuel, id, oct)),
    decreases fuel, 4nat, 0nat,
{
    let major = oct >> 5u8;
    let minor = oct & 0x1fu8;
    if major == 1 {
        lemma_mono_node(data, st, c, fuel);
    } else if 2 <= major <= 6 {
        if let Ok((n, p3)) = sd_len(data, st.pos, minor) {
            lemma_mono_kids(data, DecSt { nodes: st.nodes, pos: p3, other: st.other }, c, fuel, id, major, n);
        }
    }
}

proof fn lemma_mono_kids(data: Seq<u8>, st: DecSt, c: IdCtx, fuel: nat, id: Timestamp, major: u8, n: u64)
    requires
        st.other,
    ensures
        dec_flag(sd_kids(data, st, c, fuel, id, major, n)),
    decreases fuel, 3nat, 0nat,
{
    if major == 2 {
        lemma_mono_obj(data, st, c, fuel, n as nat);
    } else if major == 3 {
        lemma_mono_vec(data, st, c, fuel, n as nat);
    } else if major == 4 {
        lemma_mono_str(data, st, c, n as nat);
    } else if major == 5 {
        lemma_mono_bin(data, st, c, n as nat);
    } else {
        lemma_mono_arr(data, st, c, fuel, n as nat);
    }
}

proof fn lemma_mono_obj(data: Seq<u8>, st: DecSt, c: IdCtx, fuel: nat, k: nat)
    requires
        st.other,
    ensures
        dec_flag(sd_obj(data, st, c, fuel, k)),
    decreases fuel, 1nat, k,
{
    if k > 0 {
        lemma_mono_obj(data, st, c, fuel, (k - 1) as nat);
        if let Dec::Done(es, st1) = sd_obj(data, st, c, fuel, (k - 1) as nat) {
            if let Some((CborHead::Text(key), p)) = sd_cbor(data, st1.pos) {
                lemma_mono_node(data, DecSt { nodes: st1.nodes, pos: p, other: st1.other }, c, fuel);
            }
        }
    }
}

proof fn lemma_mono_vec(data: Seq<u8>, st: DecSt, c: IdCtx, fuel: nat, k: nat)
    requires
        st.other,
    ensures
        dec_flag(sd_vec(data, st, c, fuel, k)),
    decreases fuel, 1nat, k,
{
    if k > 0 {
        lemma_mono_vec(data, st, c, fuel, (k - 1) as nat);
        if let Dec::Done(es, st1) = sd_vec(data, st, c, fuel, (k - 1) as nat) {
            lemma_mono_node(data, st1, c, fuel);
        }
    }
}

proof fn lemma_mono_str(data: Seq<u8>, st: DecSt, c: IdCtx, k: nat)
    requires
        st.other,
    ensures
        dec_flag(sd_str(data, st, c, k)),
    decreases k,
{
    if k > 0 {
        lemma_mono_str(data, st, c, (k - 1) as nat);
    }
}

proof fn lemma_mono_bin(data: Seq<u8>, st: DecSt, c: IdCtx, k: nat)
    requires
        st.other,
    ensures
        dec_flag(sd_bin(data, st, c, k)),
    decreases k,
{
    if k > 0 {
        lemma_mono_bin(data, st, c, (k - 1) as nat);
    }
}

proof fn lemma_mono_arr(data: Seq<u8>, st: DecSt, c: IdCtx, fuel: nat, k: nat)
    requires
        st.other,
    ensures
        dec_flag(sd_arr(data, st, c, fuel, k)),
    decreases fuel, 2nat, k,
{
    if k > 0 {
        lemma_mono_arr(data, st, c, fuel, (k - 1) as nat);
        if let Dec::Done(atoms, st1) = sd_arr(data, st, c, fuel, (k - 1) as nat) {
            if let Ok((id, p)) = sd_id(data, st1.pos, c) {
                if let (Some((deleted, span)), p2) = spec_read_b1vu56(data, p) {
                    if deleted != 1 {
                        lemma_mono_arr_items(data, DecSt { nodes: st1.nodes, pos: p2, other: st1.other }, c, fuel, id, span as nat);
                    }
                }
            }
        }
    }
}

proof fn lemma_mono_arr_items(data: Seq<u8>, st: DecSt, c: IdCtx, fuel: nat, id: Timestamp, n: nat)
    requires
        st.other,
    ensures
        dec_flag(sd_arr_items(data, st, c, fuel, id, n)),
    decreases fuel, 1nat, n,
{
    if n > 0 {
        lemma_mono_arr_items(data, st, c, fuel, id, (n - 1) as nat);
        if let Dec::Done(items, st1) = sd_arr_items(data, st, c, fuel, id, (n - 1) as nat) {
            lemma_mono_node(data, st1, c, fuel);
        }
    }
}

/// Without the mark, no outcome carries it: every constant decodes to a
/// known value or fails.
proof fn lemma_clean_node(data: Seq<u8>, st: DecSt, c: IdCtx, fuel: nat)
    requires
        !st.other,
    ensures
        !dec_flag(sd_node(data, st, c, fuel)),
    decreases fuel, 0nat, 0nat,
{
    if fuel > 0 {
        if let Ok((id, p1)) = sd_id(data, st.pos, c) {
            if 0 <= p1 < data.len() {
                lemma_clean_body(data, DecSt { nodes: st.nodes, pos: p1 + 1, other: st.other }, c, (fuel - 1) as nat, id, data[p1]);
            }
        }
    }
}

proof fn lemma_clean_body(data: Seq<u8>, st: DecSt, c: IdCtx, fuel: nat, id: Timestamp, oct: u8)
    requires
        !st.other,
    ensures
        !dec_flag(sd_body(data, st, c, fuel, id, oct)),
    decreases fuel, 4nat, 0nat,
{
    let major = oct >> 5u8;
    let minor = oct & 0x1fu8;
    if major == 1 {
        lemma_clean_node(data, st, c, fuel);
    } else if 2 <= major <= 6 {
        if let Ok((n, p3)) = sd_len(data, st.pos, minor) {
            lemma_clean_kids(data, DecSt { nodes: st.nodes, pos: p3, other: st.other }, c, fuel, id, major, n);
        }
    }
}

proof fn lemma_clean_kids(data: Seq<u8>, st: DecSt, c: IdCtx, fuel: nat, id: Timestamp, major: u8, n: u64)
    requires
        !st.other,
    ensures
        !dec_flag(sd_kids(data, st, c, fuel, id, major, n)),
    decreases fuel, 3nat, 0nat,
{
    if major == 2 {
        lemma_clean_obj(data, st, c, fuel, n as nat);
    } else if major == 3 {
        lemma_clean_vec(data, st, c, fuel, n as nat);
    } else if major == 4 {
        lemma_clean_str(data, st, c, n as nat);
    } else if major == 5 {
        lemma_clean_bin(data, st, c, n as nat);
    } else {
        lemma_clean_arr(data, st, c, fuel, n as nat);
    }
}

proof fn lemma_clean_obj(data: Seq<u8>, st: DecSt, c: IdCtx, fuel: nat, k: nat)
    requires
        !st.other,
    ensures
        !dec_flag(sd_obj(data, st, c, fuel, k)),
    decreases fuel, 1nat, k,
{
    if k > 0 {
        lemma_clean_obj(data, st, c, fuel, (k - 1) as nat);
        if let Dec::Done(es, st1) = sd_obj(data, st, c, fuel, (k - 1) as nat) {
            if let Some((CborHead::Text(key), p)) = sd_cbor(data, st1.pos) {
                lemma_clean_node(data, DecSt { nodes: st1.nodes, pos: p, other: st1.other }, c, fuel);
            }
        }
    }
}

proof fn lemma_clean_vec(data: Seq<u8>, st: DecSt, c: IdCtx, fuel: nat, k: nat)
    requires
        !st.other,
    ensures
        !dec_flag(sd_vec(data, st, c, fuel, k)),
    decreases fuel, 1nat, k,
{
    if k > 0 {
        lemma_clean_vec(data, st, c, fuel, (k - 1) as nat);
        if let Dec::Done(es, st1) = sd_vec(data, st, c, fuel, (k - 1) as nat) {
            lemma_clean_node(data, st1, c, fuel);
        }
    }
}

proof fn lemma_clean_str(data: Seq<u8>, st: DecSt, c: IdCtx, k: nat)
    requires
        !st.other,
    ensures
        !dec_flag(sd_str(data, st, c, k)),
    decreases k,
{
    if k > 0 {
        lemma_clean_str(data, st, c, (k - 1) as nat);
    }
}

proof fn lemma_clean_bin(data: Seq<u8>, st: DecSt, c: IdCtx, k: nat)
    requires
        !st.other,
    ensures
        !dec_flag(sd_bin(data, st, c, k)),
    decreases k,
{
    if k > 0 {
        lemma_clean_bin(data, st, c, (k - 1) as nat);
    }
}

proof fn lemma_clean_arr(data: Seq<u8>, st: DecSt, c: IdCtx, fuel: nat, k: nat)
    requires
        !st.other,
    ensures
        !dec_flag(sd_arr(data, st, c, fuel, k)),
    decreases fuel, 2nat, k,
{
    if k > 0 {
        lemma_clean_arr(data, st, c, fuel, (k - 1) as nat);
        if let Dec::Done(atoms, st1) = sd_arr(data, st, c, fuel, (k - 1) as nat) {
            if let Ok((id, p)) = sd_id(data, st1.pos, c) {
                if let (Some((deleted, span)), p2) = spec_read_b1vu56(data, p) {
                    if deleted != 1 {
                        lemma_clean_arr_items(data, DecSt { nodes: st1.nodes, pos: p2, other: st1.other }, c, fuel, id, span as nat);
                    }
                }
            }
        }
    }
}

proof fn lemma_clean_arr_items(data: Seq<u8>, st: DecSt, c: IdCtx, fuel: nat, id: Timestamp, n: nat)
    requires
        !st.other,
    ensures
        !dec_flag(sd_arr_items(data, st, c, fuel, id, n)),
    decreases fuel, 1nat, n,
{
    if n > 0 {
        lemma_clean_arr_items(data, st, c, fuel, id, (n - 1) as nat);
        if let Dec::Done(items, st1) = sd_arr_items(data, st, c, fuel, id, (n - 1) as nat) {
            lemma_clean_node(data, st1, c, fuel);
        }
    }
}

/// A failure allowed on a prefix of the object entries is allowed on all.
proof fn lemma_obj_err(data: Seq<u8>, st: DecSt, c: IdCtx, fuel: nat, i: nat, n: nat, e2: ModelError)
    requires
        i <= n,
        err_ok(sd_obj(data, st, c, fuel, i), e2),
    ensures
        err_ok(sd_obj(data, st, c, fuel, n), e2),
    decreases n,
{
    if n > i {
        lemma_obj_err(data, st, c, fuel, i, (n - 1) as nat, e2);
        if let Dec::Done(es, st1) = sd_obj(data, st, c, fuel, (n - 1) as nat) {
            if let Some((CborHead::Text(key), p)) = sd_cbor(data, st1.pos) {
                lemma_mono_node(data, DecSt { nodes: st1.nodes, pos: p, other: st1.other }, c, fuel);
            }
        }
    }
}

proof fn lemma_vec_err(data: Seq<u8>, st: DecSt, c: IdCtx, fuel: nat, i: nat, n: nat, e2: ModelError)
    requires
        i <= n,
        err_ok(sd_vec(data, st, c, fuel, i), e2),
    ensures
        err_ok(sd_vec(data, st, c, fuel, n), e2),
    decreases n,
{
    if n > i {
        lemma_vec_err(data, st, c, fuel, i, (n - 1) as nat, e2);
        if let Dec::Done(es, st1) = sd_vec(data, st, c, fuel, (n - 1) as nat) {
            lemma_mono_node(data, st1, c, fuel);
        }
    }
}

proof fn lemma_str_err(data: Seq<u8>, st: DecSt, c: IdCtx, i: nat, n: nat, e2: ModelError)
    requires
        i <= n,
        err_ok(sd_str(data, st, c, i), e2),
    ensures
        err_ok(sd_str(data, st, c, n), e2),
    decreases n,
{
    if n > i {
        lemma_str_err(data, st, c, i, (n - 1) as nat, e2);
    }
}

proof fn lemma_bin_err(data: Seq<u8>, st: DecSt, c: IdCtx, i: nat, n: nat, e2: ModelError)
    requires
        i <= n,
        err_ok(sd_bin(data, st, c, i), e2),
    ensures
        err_ok(sd_bin(data, st, c, n), e2),
    decreases n,
{
    if n > i {
        lemma_bin_err(data, st, c, i, (n - 1) as nat, e2);
    }
}

proof fn lemma_arr_err(data: Seq<u8>, st: DecSt, c: IdCtx, fuel: nat, i: nat, n: nat, e2: ModelError)
    requires
        i <= n,
        err_ok(sd_arr(data, st, c, fuel, i), e2),
    ensures
        err_ok(sd_arr(data, st, c, fuel, n), e2),
    decreases n,
{
    if n > i {
        lemma_arr_err(data, st, c, fuel, i, (n - 1) as nat, e2);
        if let Dec::Done(atoms, st1) = sd_arr(data, st, c, fuel, (n - 1) as nat) {
            if let Ok((id, p)) = sd_id(data, st1.pos, c) {
                if let (Some((deleted, span)), p2) = spec_read_b1vu56(data, p) {
                    if deleted != 1 {
                        lemma_mono_arr_items(data, DecSt { nodes: st1.nodes, pos: p2, other: st1.other }, c, fuel, id, span as nat);
                    }
                }
            }
        }
    }
}

proof fn lemma_arr_items_err(data: Seq<u8>, st: DecSt, c: IdCtx, fuel: nat, id: Timestamp, i: nat, n: nat, e2: ModelError)
    requires
        i <= n,
        err_ok(sd_arr_items(data, st, c, fuel, id, i), e2),
    ensures
        err_ok(sd_arr_items(data, st, c, fuel, id, n), e2),
    decreases n,
{
    if n > i {
        lemma_arr_items_err(data, st, c, fuel, id, i, (n - 1) as nat, e2);
        if let Dec::Done(items, st1) = sd_arr_items(data, st, c, fuel, id, (n - 1) as nat) {
            lemma_mono_node(data, st1, c, fuel);
        }
    }
}

// ---------------------------------------------------------------------------
// The decoder
// ---------------------------------------------------------------------------

/// The identifier `diff` ticks before the clock of table entry `idx`.
fn rel_id(table: &Vec<LogicalClockBase>, idx: u64, diff: u64) -> (res: Result<Timestamp, ModelError>)
    ensures
        res == sd_rel_id(table@, idx as int, diff),
{
    if idx == 0 {
        return Ok(Timestamp { sid: 0, time: diff });
    }
    if idx - 1 >= table.len() as u64 {
        return Err(ModelError::InvalidClockTable);
    }
    let base = table[(idx - 1) as usize];
    if base.time < diff {
        return Err(ModelError::InvalidClockTable);
    }
    Ok(Timestamp { sid: base.sid, time: base.time - diff })
}

/// Puts `node` under `id` into the store: replacing the node held under
/// `id`, else added at the end.
pub(crate) fn store_put(nodes: &mut Vec<(Timestamp, RuntimeNode)>, id: Timestamp, node: RuntimeNode)
    ensures
        store_view(final(nodes)@) == put_node(store_view(old(nodes)@), id, node.nv()),
{
    let ghost s0 = store_view(nodes@);
    let mut p: usize = 0;
    while p < nodes.len() && nodes[p].0 != id
        invariant
            p <= nodes@.len(),
            nodes@ == old(nodes)@,
            forall|j: int| 0 <= j < p ==> nodes@[j].0 != id,
        decreases nodes.len() - p,
    {
        p = p + 1;
    }
    proof {
        assert forall|j: int| 0 <= j < p implies s0[j].0 != id by {
            assert(s0[j].0 == nodes@[j].0);
        }
        if p < nodes@.len() {
            assert(s0[p as int].0 == nodes@[p as int].0);
        }
        super::types::lemma_pos_of_at(s0, id, p as int);
    }
    if p < nodes.len() {
        nodes.set(p, (id, node));
        proof {
            assert(store_view(nodes@) =~= s0.update(p as int, (id, node.nv())));
        }
    } else {
        nodes.push((id, node));
        proof {
            assert(store_view(nodes@) =~= s0.push((id, node.nv())));
        }
    }
}

struct GraphReader<'a> {
    data: &'a [u8],
    pos: usize,
    server: bool,
    table: Vec<LogicalClockBase>,
    nodes: Vec<(Timestamp, RuntimeNode)>,
}

impl<'a> GraphReader<'a> {
    spec fn ctx(&self) -> IdCtx {
        IdCtx { server: self.server, table: self.table@ }
    }

    /// The reader keeps its input and identifier encoding, and stays within
    /// the input.
    spec fn keeps(&self, o: &Self) -> bool {
        &&& self.data@ == o.data@
        &&& self.server == o.server
        &&& self.table@ == o.table@
        &&& self.pos <= self.data@.len()
    }

    fn vu57(&mut self) -> (res: Result<u64, ModelError>)
        requires
            old(self).pos <= old(self).data@.len(),
        ensures
            final(self).keeps(old(self)),
            final(self).nodes@ == old(self).nodes@,
            final(self).pos >= old(self).pos,
            match sd_vu57(old(self).data@, old(self).pos as int) {
                Ok((v, p)) => res == Ok::<u64, ModelError>(v) && final(self).pos == p,
                Err(e) => res == Err::<u64, ModelError>(e),
            },
    {
        let mut p = self.pos;
        proof {
            crate::crdt_binary::lemma_read_vu57_pos(self.data@, p as int);
        }
        match read_vu57(self.data, &mut p) {
            Some(v) => {
                self.pos = p;
                Ok(v)
            },
            None => Err(ModelError::InvalidModelBinary),
        }
    }

    fn id(&mut self) -> (res: Result<Timestamp, ModelError>)
        requires
            old(self).pos <= old(self).data@.len(),
        ensures
            final(self).keeps(old(self)),
            final(self).nodes@ == old(self).nodes@,
            final(self).pos >= old(self).pos,
            match sd_id(old(self).data@, old(self).pos as int, old(self).ctx()) {
                Ok((v, p)) => res == Ok::<Timestamp, ModelError>(v) && final(self).pos == p,
                Err(e) => res == Err::<Timestamp, ModelError>(e),
            },
    {
        if self.server {
            match self.vu57() {
                Ok(t) => Ok(Timestamp { sid: 1, time: t }),
                Err(e) => Err(e),
            }
        } else {
            if self.pos >= self.data.len() {
                return Err(ModelError::InvalidModelBinary);
            }
            let first = self.data[self.pos];
            if first <= 0x7f {
                match rel_id(&self.table, (first >> 4) as u64, (first & 0x0f) as u64) {
                    Ok(id) => {
                        self.pos = self.pos + 1;
                        Ok(id)
                    },
                    Err(e) => Err(e),
                }
            } else {
                let mut p = self.pos;
                proof {
                    crate::crdt_binary::lemma_read_b1vu56_pos(self.data@, p as int);
                }
                match read_b1vu56(self.data, &mut p) {
                    None => Err(ModelError::InvalidModelBinary),
                    Some((_, idx)) => {
                        proof {
                            crate::crdt_binary::lemma_read_vu57_pos(self.data@, p as int);
                        }
                        match read_vu57(self.data, &mut p) {
                            None => Err(ModelError::InvalidModelBinary),
                            Some(diff) => match rel_id(&self.table, idx, diff) {
                                Ok(id) => {
                                    self.pos = p;
                                    Ok(id)
                                },
                                Err(e) => Err(e),
                            },
                        }
                    },
                }
            }
        }
    }

    fn cbor(&mut self) -> (res: Option<CborRead>)
        requires
            old(self).pos <= old(self).data@.len(),
        ensures
            final(self).keeps(old(self)),
            final(self).nodes@ == old(self).nodes@,
            final(self).pos >= old(self).pos,
            match res {
                Some(CborRead::Text(s, _)) => sd_cbor(old(self).data@, old(self).pos as int) == Some((CborHead::Text(s@), final(self).pos as int)),
                Some(CborRead::Integer(i, _)) => sd_cbor(old(self).data@, old(self).pos as int) == Some((CborHead::Integer(i as int), final(self).pos as int)),
                Some(CborRead::Other(v, _)) => sd_cbor(old(self).data@, old(self).pos as int) == Some((CborHead::Other(v), final(self).pos as int)),
                None => sd_cbor(old(self).data@, old(self).pos as int) is None,
            },
    {
        let slice = vstd::slice::slice_subrange(self.data, self.pos, self.data.len());
        let r = cbor_read_one(slice);
        match r {
            None => None,
            Some(item) => {
                let n = match &item {
                    CborRead::Text(_, n) => *n,
                    CborRead::Integer(_, n) => *n,
                    CborRead::Other(_, n) => *n,
                };
                self.pos = self.pos + n;
                Some(item)
            },
        }
    }

    fn put(&mut self, id: Timestamp, node: RuntimeNode)
        requires
            old(self).pos <= old(self).data@.len(),
        ensures
            final(self).keeps(old(self)),
            final(self).pos == old(self).pos,
            store_view(final(self).nodes@) == put_node(store_view(old(self).nodes@), id, node.nv()),
    {
        store_put(&mut self.nodes, id, node);
    }
}

impl<'a> GraphReader<'a> {
    /// The node at the position (see `sd_node`), with its subtree put into
    /// the store; `desc` and `o` describe the store so far.
    fn node(&mut self, Ghost(desc): Ghost<Seq<(Timestamp, NodeV)>>, Ghost(o): Ghost<bool>, Ghost(fuel): Ghost<nat>) -> (res: Result<Timestamp, ModelError>)
        requires
            old(self).pos <= old(self).data@.len(),
            store_agrees(store_view(old(self).nodes@), desc),
            fuel > old(self).data@.len() - old(self).pos,
        ensures
            final(self).keeps(old(self)),
            final(self).pos >= old(self).pos,
            ({
                let d = sd_node(old(self).data@, DecSt { nodes: desc, pos: old(self).pos as int, other: o }, old(self).ctx(), fuel);
                match res {
                    Ok(id) => d matches Dec::Done(id2, st2) && id == id2 && final(self).pos == st2.pos
                        && store_agrees(store_view(final(self).nodes@), st2.nodes),
                    Err(e2) => err_ok(d, e2),
                }
            }),
        decreases fuel, 0nat, 0nat,
    {
        let id = match self.id() {
            Ok(id) => id,
            Err(e) => {
                return Err(e);
            },
        };
        if self.pos >= self.data.len() {
            return Err(ModelError::InvalidModelBinary);
        }
        let oct = self.data[self.pos];
        self.pos = self.pos + 1;
        self.body(id, oct, Ghost(desc), Ghost(o), Ghost((fuel - 1) as nat))
    }

    /// The rest of node `id` after its octet (see `sd_body`).
    fn body(&mut self, id: Timestamp, oct: u8, Ghost(desc): Ghost<Seq<(Timestamp, NodeV)>>, Ghost(o): Ghost<bool>, Ghost(fuel): Ghost<nat>) -> (res: Result<Timestamp, ModelError>)
        requires
            old(self).pos <= old(self).data@.len(),
            store_agrees(store_view(old(self).nodes@), desc),
            fuel > old(self).data@.len() - old(self).pos,
        ensures
            final(self).keeps(old(self)),
            final(self).pos >= old(self).pos,
            ({
                let d = sd_body(old(self).data@, DecSt { nodes: desc, pos: old(self).pos as int, other: o }, old(self).ctx(), fuel, id, oct);
                match res {
                    Ok(id3) => d matches Dec::Done(id2, st2) && id3 == id2 && final(self).pos == st2.pos
                        && store_agrees(store_view(final(self).nodes@), st2.nodes),
                    Err(e2) => err_ok(d, e2),
                }
            }),
        decreases fuel, 4nat, 0nat,
    {
        let ghost data = self.data@;
        let ghost c = self.ctx();
        let major = oct >> 5;
        let minor = oct & 0x1f;
        if major == 0 {
            let cell = if minor == 0 {
                match self.cbor() {
                    None => {
                        return Err(ModelError::InvalidModelBinary);
                    },
                    Some(CborRead::Text(t, _)) => ConCell::Json(JsonValue::String(t)),
                    Some(CborRead::Integer(i, _)) => match int_to_json(i) {
                        Some(n) => ConCell::Json(JsonValue::Number(n)),
                        None => {
                            return Err(ModelError::InvalidModelBinary);
                        },
                    },
                    Some(CborRead::Other(v, _)) => match cbor_to_json(&v, 257) {
                        Some(j) => ConCell::Json(j),
                        None => {
                            return Err(ModelError::InvalidModelBinary);
                        },
                    },
                }
            } else {
                match self.id() {
                    Ok(rid) => ConCell::Ref(rid),
                    Err(e) => {
                        return Err(e);
                    },
                }
            };
            let node = RuntimeNode::Con(cell);
            proof {
                let r = sd_con_body(data, old(self).pos as int, c, minor);
                lemma_agrees_put(store_view(self.nodes@), desc, id, node.nv(), NodeV::Con(r->Ok_0.0));
            }
            self.put(id, node);
            Ok(id)
        } else if major == 1 {
            let ghost dc = sd_node(data, DecSt { nodes: desc, pos: self.pos as int, other: o }, c, fuel);
            match self.node(Ghost(desc), Ghost(o), Ghost(fuel)) {
                Ok(child) => {
                    proof {
                        lemma_agrees_put(store_view(self.nodes@), dc->Done_1.nodes, id, NodeV::Val(child), NodeV::Val(child));
                    }
                    self.put(id, RuntimeNode::Val(child));
                    Ok(id)
                },
                Err(e) => Err(e),
            }
        } else if major <= 6 {
            let n: u64 = if minor != 31 {
                minor as u64
            } else {
                match self.vu57() {
                    Ok(v) => v,
                    Err(e) => {
                        return Err(e);
                    },
                }
            };
            self.kids(id, major, n, Ghost(desc), Ghost(o), Ghost(fuel))
        } else {
            Err(ModelError::InvalidModelBinary)
        }
    }

    /// The items of container node `id` (see `sd_kids`).
    fn kids(&mut self, id: Timestamp, major: u8, n: u64, Ghost(desc): Ghost<Seq<(Timestamp, NodeV)>>, Ghost(o): Ghost<bool>, Ghost(fuel): Ghost<nat>) -> (res: Result<Timestamp, ModelError>)
        requires
            old(self).pos <= old(self).data@.len(),
            store_agrees(store_view(old(self).nodes@), desc),
            fuel > old(self).data@.len() - old(self).pos,
            2 <= major <= 6,
        ensures
            final(self).keeps(old(self)),
            final(self).pos >= old(self).pos,
            ({
                let d = sd_kids(old(self).data@, DecSt { nodes: desc, pos: old(self).pos as int, other: o }, old(self).ctx(), fuel, id, major, n);
                match res {
                    Ok(id3) => d matches Dec::Done(id2, st2) && id3 == id2 && final(self).pos == st2.pos
                        && store_agrees(store_view(final(self).nodes@), st2.nodes),
                    Err(e2) => err_ok(d, e2),
                }
            }),
        decreases fuel, 3nat, 0nat,
    {
        let ghost data = self.data@;
        let ghost c = self.ctx();
        let ghost st3 = DecSt { nodes: desc, pos: self.pos as int, other: o };
        let node = if major == 2 {
            match self.obj(n, Ghost(desc), Ghost(o), Ghost(fuel)) {
                Ok(es) => RuntimeNode::Obj(es),
                Err(e) => {
                    return Err(e);
                },
            }
        } else if major == 3 {
            match self.vec(n, Ghost(desc), Ghost(o), Ghost(fuel)) {
                Ok(es) => RuntimeNode::Vec(es),
                Err(e) => {
                    return Err(e);
                },
            }
        } else if major == 4 {
            match self.str_chunks(n, Ghost(desc), Ghost(o)) {
                Ok(atoms) => RuntimeNode::Str(atoms),
                Err(e) => {
                    return Err(e);
                },
            }
        } else if major == 5 {
            match self.bin_chunks(n, Ghost(desc), Ghost(o)) {
                Ok(atoms) => RuntimeNode::Bin(atoms),
                Err(e) => {
                    return Err(e);
                },
            }
        } else {
            match self.arr(n, Ghost(desc), Ghost(o), Ghost(fuel)) {
                Ok(atoms) => RuntimeNode::Arr(atoms),
                Err(e) => {
                    return Err(e);
                },
            }
        };
        proof {
            let st4 = if major == 2 {
                sd_obj(data, st3, c, fuel, n as nat)->Done_1
            } else if major == 3 {
                sd_vec(data, st3, c, fuel, n as nat)->Done_1
            } else if major == 4 {
                sd_str(data, st3, c, n as nat)->Done_1
            } else if major == 5 {
                sd_bin(data, st3, c, n as nat)->Done_1
            } else {
                sd_arr(data, st3, c, fuel, n as nat)->Done_1
            };
            lemma_agrees_put(store_view(self.nodes@), st4.nodes, id, node.nv(), node.nv());
        }
        self.put(id, node);
        Ok(id)
    }

    /// `n` object entries (see `sd_obj`).
    fn obj(&mut self, n: u64, Ghost(desc): Ghost<Seq<(Timestamp, NodeV)>>, Ghost(o): Ghost<bool>, Ghost(fuel): Ghost<nat>) -> (res: Result<Vec<(String, Timestamp)>, ModelError>)
        requires
            old(self).pos <= old(self).data@.len(),
            store_agrees(store_view(old(self).nodes@), desc),
            fuel > old(self).data@.len() - old(self).pos,
        ensures
            final(self).keeps(old(self)),
            final(self).pos >= old(self).pos,
            ({
                let d = sd_obj(old(self).data@, DecSt { nodes: desc, pos: old(self).pos as int, other: o }, old(self).ctx(), fuel, n as nat);
                match res {
                    Ok(es) => d matches Dec::Done(esd, st2) && obj_entries_view(es@) == esd && final(self).pos == st2.pos
                        && store_agrees(store_view(final(self).nodes@), st2.nodes),
                    Err(e2) => err_ok(d, e2),
                }
            }),
        decreases fuel, 1nat, n,
    {
        let ghost data = self.data@;
        let ghost c = self.ctx();
        let ghost st0 = DecSt { nodes: desc, pos: self.pos as int, other: o };
        let ghost start = self.pos;
        let ghost orig = *self;
        let mut es: Vec<(String, Timestamp)> = Vec::new();
        let ghost mut cur_desc = desc;
        let ghost mut cur_o = o;
        let mut i: u64 = 0;
        assert(obj_entries_view(es@) =~= Seq::<(Seq<char>, Timestamp)>::empty());
        while i < n
            invariant
                self.keeps(&orig),
                orig == *old(self),
                start == orig.pos,
                orig.data@ == data,
                orig.ctx() == c,
                self.pos >= start,
                fuel > data.len() - start,
                i <= n,
                st0 == (DecSt { nodes: desc, pos: start as int, other: o }),
                sd_obj(data, st0, c, fuel, i as nat) == Dec::Done(obj_entries_view(es@), DecSt { nodes: cur_desc, pos: self.pos as int, other: cur_o }),
                store_agrees(store_view(self.nodes@), cur_desc),
            decreases n - i,
        {
            match self.cbor() {
                Some(CborRead::Text(key, _)) => {
                    let ghost dn = sd_node(data, DecSt { nodes: cur_desc, pos: self.pos as int, other: cur_o }, c, fuel);
                    match self.node(Ghost(cur_desc), Ghost(cur_o), Ghost(fuel)) {
                        Ok(child) => {
                            let ghost ev0 = obj_entries_view(es@);
                            let ghost key_v = key@;
                            es.push((key, child));
                            proof {
                                assert(obj_entries_view(es@) =~= ev0.push((key_v, child)));
                                cur_desc = dn->Done_1.nodes;
                                cur_o = dn->Done_1.other;
                            }
                        },
                        Err(e) => {
                            proof {
                                lemma_obj_err(data, st0, c, fuel, (i + 1) as nat, n as nat, e);
                            }
                            return Err(e);
                        },
                    }
                },
                _ => {
                    proof {
                        lemma_obj_err(data, st0, c, fuel, (i + 1) as nat, n as nat, ModelError::InvalidModelBinary);
                    }
                    return Err(ModelError::InvalidModelBinary);
                },
            }
            i = i + 1;
        }
        Ok(es)
    }

    /// `n` vector slots (see `sd_vec`).
    fn vec(&mut self, n: u64, Ghost(desc): Ghost<Seq<(Timestamp, NodeV)>>, Ghost(o): Ghost<bool>, Ghost(fuel): Ghost<nat>) -> (res: Result<Vec<(u64, Timestamp)>, ModelError>)
        requires
            old(self).pos <= old(self).data@.len(),
            store_agrees(store_view(old(self).nodes@), desc),
            fuel > old(self).data@.len() - old(self).pos,
        ensures
            final(self).keeps(old(self)),
            final(self).pos >= old(self).pos,
            ({
                let d = sd_vec(old(self).data@, DecSt { nodes: desc, pos: old(self).pos as int, other: o }, old(self).ctx(), fuel, n as nat);
                match res {
                    Ok(es) => d matches Dec::Done(esd, st2) && es@ == esd && final(self).pos == st2.pos
                        && store_agrees(store_view(final(self).nodes@), st2.nodes),
                    Err(e2) => err_ok(d, e2),
                }
            }),
        decreases fuel, 1nat, n,
    {
        let ghost data = self.data@;
        let ghost c = self.ctx();
        let ghost st0 = DecSt { nodes: desc, pos: self.pos as int, other: o };
        let ghost start = self.pos;
        let ghost orig = *self;
        let mut es: Vec<(u64, Timestamp)> = Vec::new();
        let ghost mut cur_desc = desc;
        let ghost mut cur_o = o;
        let mut i: u64 = 0;
        while i < n
            invariant
                self.keeps(&orig),
                orig == *old(self),
                start == orig.pos,
                orig.data@ == data,
                orig.ctx() == c,
                self.pos >= start,
                fuel > data.len() - start,
                i <= n,
                st0 == (DecSt { nodes: desc, pos: start as int, other: o }),
                sd_vec(data, st0, c, fuel, i as nat) == Dec::Done(es@, DecSt { nodes: cur_desc, pos: self.pos as int, other: cur_o }),
                store_agrees(store_view(self.nodes@), cur_desc),
            decreases n - i,
        {
            if self.pos >= self.data.len() {
                proof {
                    lemma_vec_err(data, st0, c, fuel, (i + 1) as nat, n as nat, ModelError::InvalidModelBinary);
                }
                return Err(ModelError::InvalidModelBinary);
            }
            if self.data[self.pos] == 0 {
                self.pos = self.pos + 1;
            } else {
                let ghost dn = sd_node(data, DecSt { nodes: cur_desc, pos: self.pos as int, other: cur_o }, c, fuel);
                match self.node(Ghost(cur_desc), Ghost(cur_o), Ghost(fuel)) {
                    Ok(child) => {
                        es.push((i, child));
                        proof {
                            cur_desc = dn->Done_1.nodes;
                            cur_o = dn->Done_1.other;
                        }
                    },
                    Err(e) => {
                        proof {
                            lemma_vec_err(data, st0, c, fuel, (i + 1) as nat, n as nat, e);
                        }
                        return Err(e);
                    },
                }
            }
            i = i + 1;
        }
        Ok(es)
    }

    /// `n` string chunks (see `sd_str`).
    fn str_chunks(&mut self, n: u64, Ghost(desc): Ghost<Seq<(Timestamp, NodeV)>>, Ghost(o): Ghost<bool>) -> (res: Result<Vec<StrAtom>, ModelError>)
        requires
            old(self).pos <= old(self).data@.len(),
        ensures
            final(self).keeps(old(self)),
            final(self).pos >= old(self).pos,
            final(self).nodes@ == old(self).nodes@,
            ({
                let d = sd_str(old(self).data@, DecSt { nodes: desc, pos: old(self).pos as int, other: o }, old(self).ctx(), n as nat);
                match res {
                    Ok(atoms) => d matches Dec::Done(ad, st2) && str_atoms_view(atoms@) == ad && final(self).pos == st2.pos
                        && st2.nodes == desc && st2.other == o,
                    Err(e2) => err_ok(d, e2),
                }
            }),
    {
        let ghost data = self.data@;
        let ghost c = self.ctx();
        let ghost st0 = DecSt { nodes: desc, pos: self.pos as int, other: o };
        let ghost start = self.pos;
        let ghost orig = *self;
        let mut atoms: Vec<StrAtom> = Vec::new();
        let mut i: u64 = 0;
        assert(str_atoms_view(atoms@) =~= Seq::<(Timestamp, Option<char>)>::empty());
        while i < n
            invariant
                self.keeps(&orig),
                orig == *old(self),
                start == orig.pos,
                orig.data@ == data,
                orig.ctx() == c,
                self.nodes@ == orig.nodes@,
                self.pos >= start,
                i <= n,
                st0 == (DecSt { nodes: desc, pos: start as int, other: o }),
                sd_str(data, st0, c, i as nat) == Dec::Done(str_atoms_view(atoms@), DecSt { nodes: desc, pos: self.pos as int, other: o }),
            decreases n - i,
        {
            let id = match self.id() {
                Ok(id) => id,
                Err(e) => {
                    proof {
                        lemma_str_err(data, st0, c, (i + 1) as nat, n as nat, e);
                    }
                    return Err(e);
                },
            };
            let ghost a0 = str_atoms_view(atoms@);
            match self.cbor() {
                Some(CborRead::Text(t, _)) => {
                    let chars = crate::text::str_chars(t.as_str());
                    let mut k: usize = 0;
                    while k < chars.len()
                        invariant
                            k <= chars@.len(),
                            chars@ == t@,
                            str_atoms_view(atoms@) =~= a0 + chunk_atoms(id, chars@.take(k as int)),
                        decreases chars.len() - k,
                    {
                        let time = id.time.wrapping_add(k as u64);
                        let ghost v0 = str_atoms_view(atoms@);
                        atoms.push(StrAtom { slot: Timestamp { sid: id.sid, time }, ch: Some(chars[k]) });
                        proof {
                            assert(chars@.take(k + 1) =~= chars@.take(k as int).push(chars@[k as int]));
                            assert(chunk_atoms(id, chars@.take(k + 1)) =~= chunk_atoms(id, chars@.take(k as int)).push((chunk_slot(id, k as int), Some(chars@[k as int]))));
                            assert(str_atoms_view(atoms@) =~= v0.push((chunk_slot(id, k as int), Some(chars@[k as int]))));
                        }
                        k = k + 1;
                    }
                    assert(chars@.take(chars@.len() as int) =~= chars@);
                },
                Some(CborRead::Integer(v, _)) => {
                    if v < 0 || v > 0xffff_ffff_ffff_ffffi128 {
                        proof {
                            lemma_str_err(data, st0, c, (i + 1) as nat, n as nat, ModelError::InvalidModelBinary);
                        }
                        return Err(ModelError::InvalidModelBinary);
                    }
                    let span = v as u64;
                    let mut k: u64 = 0;
                    while k < span
                        invariant
                            k <= span,
                            str_atoms_view(atoms@) =~= a0 + deleted_atoms::<char>(id, k as nat),
                        decreases span - k,
                    {
                        let time = id.time.wrapping_add(k);
                        let ghost v0 = str_atoms_view(atoms@);
                        atoms.push(StrAtom { slot: Timestamp { sid: id.sid, time }, ch: None });
                        proof {
                            assert(deleted_atoms::<char>(id, (k + 1) as nat) =~= deleted_atoms::<char>(id, k as nat).push((chunk_slot(id, k as int), None)));
                            assert(str_atoms_view(atoms@) =~= v0.push((chunk_slot(id, k as int), None)));
                        }
                        k = k + 1;
                    }
                },
                _ => {
                    proof {
                        lemma_str_err(data, st0, c, (i + 1) as nat, n as nat, ModelError::InvalidModelBinary);
                    }
                    return Err(ModelError::InvalidModelBinary);
                },
            }
            i = i + 1;
        }
        Ok(atoms)
    }

    /// `n` binary chunks (see `sd_bin`).
    fn bin_chunks(&mut self, n: u64, Ghost(desc): Ghost<Seq<(Timestamp, NodeV)>>, Ghost(o): Ghost<bool>) -> (res: Result<Vec<BinAtom>, ModelError>)
        requires
            old(self).pos <= old(self).data@.len(),
        ensures
            final(self).keeps(old(self)),
            final(self).pos >= old(self).pos,
            final(self).nodes@ == old(self).nodes@,
            ({
                let d = sd_bin(old(self).data@, DecSt { nodes: desc, pos: old(self).pos as int, other: o }, old(self).ctx(), n as nat);
                match res {
                    Ok(atoms) => d matches Dec::Done(ad, st2) && bin_atoms_view(atoms@) == ad && final(self).pos == st2.pos
                        && st2.nodes == desc && st2.other == o,
                    Err(e2) => err_ok(d, e2),
                }
            }),
    {
        let ghost data = self.data@;
        let ghost c = self.ctx();
        let ghost st0 = DecSt { nodes: desc, pos: self.pos as int, other: o };
        let ghost start = self.pos;
        let ghost orig = *self;
        let mut atoms: Vec<BinAtom> = Vec::new();
        let mut i: u64 = 0;
        assert(bin_atoms_view(atoms@) =~= Seq::<(Timestamp, Option<u8>)>::empty());
        while i < n
            invariant
                self.keeps(&orig),
                orig == *old(self),
                start == orig.pos,
                orig.data@ == data,
                orig.ctx() == c,
                self.nodes@ == orig.nodes@,
                self.pos >= start,
                i <= n,
                st0 == (DecSt { nodes: desc, pos: start as int, other: o }),
                sd_bin(data, st0, c, i as nat) == Dec::Done(bin_atoms_view(atoms@), DecSt { nodes: desc, pos: self.pos as int, other: o }),
            decreases n - i,
        {
            let id = match self.id() {
                Ok(id) => id,
                Err(e) => {
                    proof {
                        lemma_bin_err(data, st0, c, (i + 1) as nat, n as nat, e);
                    }
                    return Err(e);
                },
            };
            let ghost a0 = bin_atoms_view(atoms@);
            let mut p = self.pos;
            proof {
                crate::crdt_binary::lemma_read_b1vu56_pos(data, p as int);
            }
            match read_b1vu56(self.data, &mut p) {
                None => {
                    proof {
                        lemma_bin_err(data, st0, c, (i + 1) as nat, n as nat, ModelError::InvalidModelBinary);
                    }
                    return Err(ModelError::InvalidModelBinary);
                },
                Some((deleted, span)) => {
                    self.pos = p;
                    if deleted == 1 {
                        let mut k: u64 = 0;
                        while k < span
                            invariant
                                k <= span,
                                bin_atoms_view(atoms@) =~= a0 + deleted_atoms::<u8>(id, k as nat),
                            decreases span - k,
                        {
                            let time = id.time.wrapping_add(k);
                            let ghost v0 = bin_atoms_view(atoms@);
                            atoms.push(BinAtom { slot: Timestamp { sid: id.sid, time }, byte: None });
                            proof {
                                assert(deleted_atoms::<u8>(id, (k + 1) as nat) =~= deleted_atoms::<u8>(id, k as nat).push((chunk_slot(id, k as int), None)));
                                assert(bin_atoms_view(atoms@) =~= v0.push((chunk_slot(id, k as int), None)));
                            }
                            k = k + 1;
                        }
                    } else {
                        if span > (self.data.len() - self.pos) as u64 {
                            proof {
                                lemma_bin_err(data, st0, c, (i + 1) as nat, n as nat, ModelError::InvalidModelBinary);
                            }
                            return Err(ModelError::InvalidModelBinary);
                        }
                        let len = span as usize;
                        let base = self.pos;
                        let bytes = self.data;
                        let dlen = bytes.len();
                        let mut k: usize = 0;
                        while k < len
                            invariant
                                k <= len,
                                dlen == bytes@.len(),
                                base + len <= dlen,
                                bytes@ == data,
                                len == span,
                                bin_atoms_view(atoms@) =~= a0 + chunk_atoms(id, data.subrange(base as int, base + k)),
                            decreases len - k,
                        {
                            let time = id.time.wrapping_add(k as u64);
                            let b = bytes[base + k];
                            let ghost v0 = bin_atoms_view(atoms@);
                            atoms.push(BinAtom { slot: Timestamp { sid: id.sid, time }, byte: Some(b) });
                            proof {
                                assert(data.subrange(base as int, base + k + 1) =~= data.subrange(base as int, base + k).push(b));
                                assert(chunk_atoms(id, data.subrange(base as int, base + k + 1)) =~= chunk_atoms(id, data.subrange(base as int, base + k)).push((chunk_slot(id, k as int), Some(b))));
                                assert(bin_atoms_view(atoms@) =~= v0.push((chunk_slot(id, k as int), Some(b))));
                            }
                            k = k + 1;
                        }
                        self.pos = base + len;
                    }
                },
            }
            i = i + 1;
        }
        Ok(atoms)
    }

    /// `n` array chunks (see `sd_arr`).
    fn arr(&mut self, n: u64, Ghost(desc): Ghost<Seq<(Timestamp, NodeV)>>, Ghost(o): Ghost<bool>, Ghost(fuel): Ghost<nat>) -> (res: Result<Vec<ArrAtom>, ModelError>)
        requires
            old(self).pos <= old(self).data@.len(),
            store_agrees(store_view(old(self).nodes@), desc),
            fuel > old(self).data@.len() - old(self).pos,
        ensures
            final(self).keeps(old(self)),
            final(self).pos >= old(self).pos,
            ({
                let d = sd_arr(old(self).data@, DecSt { nodes: desc, pos: old(self).pos as int, other: o }, old(self).ctx(), fuel, n as nat);
                match res {
                    Ok(atoms) => d matches Dec::Done(ad, st2) && arr_atoms_view(atoms@) == ad && final(self).pos == st2.pos
                        && store_agrees(store_view(final(self).nodes@), st2.nodes),
                    Err(e2) => err_ok(d, e2),
                }
            }),
        decreases fuel, 2nat, n,
    {
        let ghost data = self.data@;
        let ghost c = self.ctx();
        let ghost st0 = DecSt { nodes: desc, pos: self.pos as int, other: o };
        let ghost start = self.pos;
        let ghost orig = *self;
        let mut atoms: Vec<ArrAtom> = Vec::new();
        let ghost mut cur_desc = desc;
        let ghost mut cur_o = o;
        let mut i: u64 = 0;
        assert(arr_atoms_view(atoms@) =~= Seq::<(Timestamp, Option<Timestamp>)>::empty());
        while i < n
            invariant
                self.keeps(&orig),
                orig == *old(self),
                start == orig.pos,
                orig.data@ == data,
                orig.ctx() == c,
                self.pos >= start,
                fuel > data.len() - start,
                i <= n,
                st0 == (DecSt { nodes: desc, pos: start as int, other: o }),
                sd_arr(data, st0, c, fuel, i as nat) == Dec::Done(arr_atoms_view(atoms@), DecSt { nodes: cur_desc, pos: self.pos as int, other: cur_o }),
                store_agrees(store_view(self.nodes@), cur_desc),
            decreases n - i,
        {
            let id = match self.id() {
                Ok(id) => id,
                Err(e) => {
                    proof {
                        lemma_arr_err(data, st0, c, fuel, (i + 1) as nat, n as nat, e);
                    }
                    return Err(e);
                },
            };
            let ghost a0 = arr_atoms_view(atoms@);
            let mut p = self.pos;
            proof {
                crate::crdt_binary::lemma_read_b1vu56_pos(data, p as int);
            }
            match read_b1vu56(self.data, &mut p) {
                None => {
                    proof {
                        lemma_arr_err(data, st0, c, fuel, (i + 1) as nat, n as nat, ModelError::InvalidModelBinary);
                    }
                    return Err(ModelError::InvalidModelBinary);
                },
                Some((deleted, span)) => {
                    self.pos = p;
                    if deleted == 1 {
                        let mut k: u64 = 0;
                        while k < span
                            invariant
                                k <= span,
                                arr_atoms_view(atoms@) =~= a0 + deleted_atoms::<Timestamp>(id, k as nat),
                            decreases span - k,
                        {
                            let time = id.time.wrapping_add(k);
                            let ghost v0 = arr_atoms_view(atoms@);
                            atoms.push(ArrAtom { slot: Timestamp { sid: id.sid, time }, value: None });
                            proof {
                                assert(deleted_atoms::<Timestamp>(id, (k + 1) as nat) =~= deleted_atoms::<Timestamp>(id, k as nat).push((chunk_slot(id, k as int), None)));
                                assert(arr_atoms_view(atoms@) =~= v0.push((chunk_slot(id, k as int), None)));
                            }
                            k = k + 1;
                        }
                    } else {
                        let ghost di = sd_arr_items(data, DecSt { nodes: cur_desc, pos: self.pos as int, other: cur_o }, c, fuel, id, span as nat);
                        match self.arr_items(id, span, Ghost(cur_desc), Ghost(cur_o), Ghost(fuel)) {
                            Ok(items) => {
                                let ghost iv = arr_atoms_view(items@);
                                let mut items = items;
                                atoms.append(&mut items);
                                proof {
                                    assert(arr_atoms_view(atoms@) =~= a0 + iv);
                                    cur_desc = di->Done_1.nodes;
                                    cur_o = di->Done_1.other;
                                }
                            },
                            Err(e) => {
                                proof {
                                    lemma_arr_err(data, st0, c, fuel, (i + 1) as nat, n as nat, e);
                                }
                                return Err(e);
                            },
                        }
                    }
                },
            }
            i = i + 1;
        }
        Ok(atoms)
    }

    /// The `n` nodes of a live array chunk with identifier `id` (see
    /// `sd_arr_items`).
    fn arr_items(&mut self, id: Timestamp, n: u64, Ghost(desc): Ghost<Seq<(Timestamp, NodeV)>>, Ghost(o): Ghost<bool>, Ghost(fuel): Ghost<nat>) -> (res: Result<Vec<ArrAtom>, ModelError>)
        requires
            old(self).pos <= old(self).data@.len(),
            store_agrees(store_view(old(self).nodes@), desc),
            fuel > old(self).data@.len() - old(self).pos,
        ensures
            final(self).keeps(old(self)),
            final(self).pos >= old(self).pos,
            ({
                let d = sd_arr_items(old(self).data@, DecSt { nodes: desc, pos: old(self).pos as int, other: o }, old(self).ctx(), fuel, id, n as nat);
                match res {
                    Ok(items) => d matches Dec::Done(ad, st2) && arr_atoms_view(items@) == ad && final(self).pos == st2.pos
                        && store_agrees(store_view(final(self).nodes@), st2.nodes),
                    Err(e2) => err_ok(d, e2),
                }
            }),
        decreases fuel, 1nat, n,
    {
        let ghost data = self.data@;
        let ghost c = self.ctx();
        let ghost st0 = DecSt { nodes: desc, pos: self.pos as int, other: o };
        let ghost start = self.pos;
        let ghost orig = *self;
        let mut items: Vec<ArrAtom> = Vec::new();
        let ghost mut cur_desc = desc;
        let ghost mut cur_o = o;
        let mut k: u64 = 0;
        assert(arr_atoms_view(items@) =~= Seq::<(Timestamp, Option<Timestamp>)>::empty());
        while k < n
            invariant
                self.keeps(&orig),
                orig == *old(self),
                start == orig.pos,
                orig.data@ == data,
                orig.ctx() == c,
                self.pos >= start,
                fuel > data.len() - start,
                k <= n,
                st0 == (DecSt { nodes: desc, pos: start as int, other: o }),
                sd_arr_items(data, st0, c, fuel, id, k as nat) == Dec::Done(arr_atoms_view(items@), DecSt { nodes: cur_desc, pos: self.pos as int, other: cur_o }),
                store_agrees(store_view(self.nodes@), cur_desc),
            decreases n - k,
        {
            let ghost dn = sd_node(data, DecSt { nodes: cur_desc, pos: self.pos as int, other: cur_o }, c, fuel);
            match self.node(Ghost(cur_desc), Ghost(cur_o), Ghost(fuel)) {
                Ok(child) => {
                    let ghost i0 = arr_atoms_view(items@);
                    let time = id.time.wrapping_add(k);
                    items.push(ArrAtom { slot: Timestamp { sid: id.sid, time }, value: Some(child) });
                    proof {
                        assert(arr_atoms_view(items@) =~= i0.push((chunk_slot(id, k as int), Some(child))));
                        cur_desc = dn->Done_1.nodes;
                        cur_o = dn->Done_1.other;
                    }
                },
                Err(e) => {
                    proof {
                        lemma_arr_items_err(data, st0, c, fuel, id, (k + 1) as nat, n as nat, e);
                    }
                    return Err(e);
                },
            }
            k = k + 1;
        }
        Ok(items)
    }
}

/// The outcome of decoding a whole model: the nodes, root, clock table and
/// server time, with whether a constant left open was met; or a failure.
pub enum GraphDec {
    Done(Seq<(Timestamp, NodeV)>, Option<Timestamp>, Seq<LogicalClockBase>, Option<u64>, bool),
    Fail(ModelError, bool),
}

/// `k` clock table entries from `pos` (a `vu57` session id and time each).
pub open spec fn sd_table_entries(data: Seq<u8>, pos: int, k: nat) -> Result<(Seq<LogicalClockBase>, int), ModelError>
    decreases k,
{
    if k == 0 {
        Ok((Seq::empty(), pos))
    } else {
        match sd_table_entries(data, pos, (k - 1) as nat) {
            Err(e) => Err(e),
            Ok((es, p)) => match spec_read_vu57(data, p) {
                (Some(sid), p1) => match spec_read_vu57(data, p1) {
                    (Some(time), p2) => Ok((es.push(LogicalClockBase { sid, time }), p2)),
                    (None, _) => Err(ModelError::InvalidClockTable),
                },
                (None, _) => Err(ModelError::InvalidClockTable),
            },
        }
    }
}

/// The decoding of a whole model binary.
pub open spec fn spec_decode_graph(data: Seq<u8>) -> GraphDec {
    if data.len() == 0 {
        GraphDec::Fail(ModelError::InvalidModelBinary, false)
    } else if data[0] & 0x80u8 != 0 {
        match sd_vu57(data, 1) {
            Err(e) => GraphDec::Fail(e, false),
            Ok((t, p)) => match sd_root(data, DecSt { nodes: Seq::empty(), pos: p, other: false }, IdCtx { server: true, table: Seq::empty() }) {
                Dec::Done(root, st) => GraphDec::Done(st.nodes, root, Seq::empty(), Some(t), st.other),
                Dec::Fail(e, o) => GraphDec::Fail(e, o),
            },
        }
    } else if data.len() < 4 {
        GraphDec::Fail(ModelError::InvalidModelBinary, false)
    } else {
        let end = 4 + be_u32(data);
        if end > usize::MAX || end > data.len() {
            GraphDec::Fail(ModelError::InvalidClockTable, false)
        } else {
            match spec_read_vu57(data, end) {
                (None, _) => GraphDec::Fail(ModelError::InvalidClockTable, false),
                (Some(n), p) => if n == 0 {
                    GraphDec::Fail(ModelError::InvalidClockTable, false)
                } else {
                    match sd_table_entries(data, p, n as nat) {
                        Err(e) => GraphDec::Fail(e, false),
                        Ok((table, _)) => {
                            let tree = data.subrange(4, end);
                            match sd_root(tree, DecSt { nodes: Seq::empty(), pos: 0, other: false }, IdCtx { server: false, table }) {
                                Dec::Done(root, st) => if st.pos != tree.len() {
                                    GraphDec::Fail(ModelError::InvalidModelBinary, st.other)
                                } else {
                                    GraphDec::Done(st.nodes, root, table, None, st.other)
                                },
                                Dec::Fail(e, o) => GraphDec::Fail(e, o),
                            }
                        },
                    }
                },
            }
        }
    }
}

/// What a decoding result owes its description: on success, nodes that
/// agree with the described ones and the described root, table and server
/// time; on failure, the described failure (the refusal of a constant left
/// open cannot arise: see `lemma_graph_settled`).
pub open spec fn graph_result_ok(
    data: Seq<u8>,
    res: Result<(Vec<(Timestamp, RuntimeNode)>, Option<Timestamp>, Vec<LogicalClockBase>, Option<u64>), ModelError>,
) -> bool {
    match spec_decode_graph(data) {
        GraphDec::Done(nodes, root, table, server, other) => match res {
            Ok((ns, r, t, sv)) => store_agrees(store_view(ns@), nodes) && r == root && t@ == table && sv == server,
            Err(e) => other && e == ModelError::InvalidModelBinary,
        },
        GraphDec::Fail(e, other) => match res {
            Err(e2) => e2 == e || (other && e2 == ModelError::InvalidModelBinary),
            Ok(_) => false,
        },
    }
}

impl<'a> GraphReader<'a> {
    /// The root at the position (see `sd_root`).
    fn root(&mut self) -> (res: Result<Option<Timestamp>, ModelError>)
        requires
            old(self).pos <= old(self).data@.len(),
            old(self).nodes@.len() == 0,
        ensures
            final(self).keeps(old(self)),
            ({
                let d = sd_root(old(self).data@, DecSt { nodes: Seq::empty(), pos: old(self).pos as int, other: false }, old(self).ctx());
                match res {
                    Ok(r) => d matches Dec::Done(r2, st2) && r == r2 && final(self).pos == st2.pos
                        && store_agrees(store_view(final(self).nodes@), st2.nodes),
                    Err(e2) => err_ok(d, e2),
                }
            }),
    {
        if self.pos >= self.data.len() {
            return Err(ModelError::InvalidModelBinary);
        }
        if self.data[self.pos] == 0 {
            self.pos = self.pos + 1;
            proof {
                assert(store_view(self.nodes@) =~= Seq::<(Timestamp, NodeV)>::empty());
            }
            return Ok(None);
        }
        proof {
            assert(store_view(self.nodes@) =~= Seq::<(Timestamp, NodeV)>::empty());
        }
        match self.node(Ghost(Seq::empty()), Ghost(false), Ghost((self.data@.len() + 1) as nat)) {
            Ok(id) => Ok(Some(id)),
            Err(e) => Err(e),
        }
    }
}

/// Decodes a model binary into its node store, root, clock table (empty for
/// a server-clock model) and server time (for a server-clock model).
pub fn decode_runtime_graph(data: &[u8]) -> (res: Result<(Vec<(Timestamp, RuntimeNode)>, Option<Timestamp>, Vec<LogicalClockBase>, Option<u64>), ModelError>)
    ensures
        graph_result_ok(data@, res),
        match spec_decode_graph(data@) {
            GraphDec::Done(nodes, root, table, server, _) => res matches Ok((ns, r, t, sv))
                && store_agrees(store_view(ns@), nodes) && r == root && t@ == table && sv == server,
            GraphDec::Fail(e, _) => res == Err::<(Vec<(Timestamp, RuntimeNode)>, Option<Timestamp>, Vec<LogicalClockBase>, Option<u64>), ModelError>(e),
        },
{
    proof {
        lemma_graph_settled(data@);
    }
    if data.len() == 0 {
        return Err(ModelError::InvalidModelBinary);
    }
    if data[0] & 0x80 != 0 {
        let mut p: usize = 1;
        proof {
            crate::crdt_binary::lemma_read_vu57_pos(data@, 1);
        }
        let server_time = match read_vu57(data, &mut p) {
            Some(t) => t,
            None => {
                return Err(ModelError::InvalidModelBinary);
            },
        };
        let mut reader = GraphReader { data, pos: p, server: true, table: Vec::new(), nodes: Vec::new() };
        proof {
            assert(reader.table@ =~= Seq::<LogicalClockBase>::empty());
        }
        match reader.root() {
            Ok(root) => Ok((reader.nodes, root, Vec::new(), Some(server_time))),
            Err(e) => Err(e),
        }
    } else {
        if data.len() < 4 {
            return Err(ModelError::InvalidModelBinary);
        }
        let offset = ((data[0] as u32) << 24) | ((data[1] as u32) << 16) | ((data[2] as u32) << 8) | (data[3] as u32);
        assert(offset == be_u32(data@));
        if offset as u64 > (usize::MAX - 4) as u64 {
            return Err(ModelError::InvalidClockTable);
        }
        let end: usize = 4 + offset as usize;
        if end > data.len() {
            return Err(ModelError::InvalidClockTable);
        }
        let mut cpos = end;
        proof {
            crate::crdt_binary::lemma_read_vu57_pos(data@, cpos as int);
        }
        let n = match read_vu57(data, &mut cpos) {
            Some(n) => n,
            None => {
                return Err(ModelError::InvalidClockTable);
            },
        };
        if n == 0 {
            return Err(ModelError::InvalidClockTable);
        }
        let ghost p0 = cpos as int;
        let mut table: Vec<LogicalClockBase> = Vec::new();
        let mut i: u64 = 0;
        while i < n
            invariant
                i <= n,
                n != 0,
                cpos <= data@.len(),
                data@.len() >= 4,
                data@[0] & 0x80u8 == 0,
                end as int == 4 + be_u32(data@),
                end <= usize::MAX,
                end <= data@.len(),
                spec_read_vu57(data@, end as int) == (Some(n), p0),
                sd_table_entries(data@, p0, i as nat) == Ok::<(Seq<LogicalClockBase>, int), ModelError>((table@, cpos as int)),
            decreases n - i,
        {
            proof {
                crate::crdt_binary::lemma_read_vu57_pos(data@, cpos as int);
            }
            let sid = match read_vu57(data, &mut cpos) {
                Some(v) => v,
                None => {
                    proof {
                        lemma_table_err(data@, p0, (i + 1) as nat, n as nat);
                    }
                    return Err(ModelError::InvalidClockTable);
                },
            };
            proof {
                crate::crdt_binary::lemma_read_vu57_pos(data@, cpos as int);
            }
            let time = match read_vu57(data, &mut cpos) {
                Some(v) => v,
                None => {
                    proof {
                        lemma_table_err(data@, p0, (i + 1) as nat, n as nat);
                    }
                    return Err(ModelError::InvalidClockTable);
                },
            };
            table.push(LogicalClockBase { sid, time });
            i = i + 1;
        }
        let tree = vstd::slice::slice_subrange(data, 4, end);
        let mut reader = GraphReader { data: tree, pos: 0, server: false, table, nodes: Vec::new() };
        match reader.root() {
            Ok(root) => {
                if reader.pos != tree.len() {
                    return Err(ModelError::InvalidModelBinary);
                }
                Ok((reader.nodes, root, reader.table, None))
            },
            Err(e) => Err(e),
        }
    }
}

/// A table entry that fails to read fails the whole table.
pub(crate) proof fn lemma_table_err(data: Seq<u8>, pos: int, i: nat, n: nat)
    requires
        i <= n,
        sd_table_entries(data, pos, i) == Err::<(Seq<LogicalClockBase>, int), ModelError>(ModelError::InvalidClockTable),
    ensures
        sd_table_entries(data, pos, n) == Err::<(Seq<LogicalClockBase>, int), ModelError>(ModelError::InvalidClockTable),
    decreases n,
{
    if n > i {
        lemma_table_err(data, pos, i, (n - 1) as nat);
    }
}

proof fn lemma_clean_root(data: Seq<u8>, st: DecSt, c: IdCtx)
    requires
        !st.other,
    ensures
        !dec_flag(sd_root(data, st, c)),
{
    if 0 <= st.pos < data.len() && data[st.pos] != 0 {
        lemma_clean_node(data, st, c, (data.len() + 1) as nat);
    }
}

/// Decoding a model binary never leaves a constant open: the mark of the
/// outcome is always unset, so `graph_result_ok` pins the result down.
pub proof fn lemma_graph_settled(data: Seq<u8>)
    ensures
        match spec_decode_graph(data) {
            GraphDec::Done(_, _, _, _, o) => !o,
            GraphDec::Fail(_, o) => !o,
        },
{
    if data.len() > 0 && data[0] & 0x80u8 != 0 {
        if let Ok((t, p)) = sd_vu57(data, 1) {
            lemma_clean_root(data, DecSt { nodes: Seq::empty(), pos: p, other: false }, IdCtx { server: true, table: Seq::empty() });
        }
    } else if data.len() >= 4 {
        let end = 4 + be_u32(data);
        if end <= usize::MAX && end <= data.len() {
            if let (Some(n), p) = spec_read_vu57(data, end) {
                if n != 0 {
                    if let Ok((table, _)) = sd_table_entries(data, p, n as nat) {
                        let tree = data.subrange(4, end);
                        lemma_clean_root(tree, DecSt { nodes: Seq::empty(), pos: 0, other: false }, IdCtx { server: false, table });
                    }
                }
            }
        }
    }
}

} // verus!
