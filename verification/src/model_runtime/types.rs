//! Nodes of the runtime graph, their mathematical content, and the order of
//! identifiers.

use vstd::prelude::*;
use crate::json::{JsonValue, JsonView};
use crate::patch::Timestamp;

verus! {

/// The value held by a constant node.
#[derive(Debug)]
pub enum ConCell {
    Json(JsonValue),
    Ref(Timestamp),
    Undef,
}

/// One character slot of a string node; `None` once deleted.
#[derive(Debug, Clone, Copy, PartialEq, Eq, Structural)]
pub struct StrAtom {
    pub slot: Timestamp,
    pub ch: Option<char>,
}

/// One byte slot of a binary node; `None` once deleted.
#[derive(Debug, Clone, Copy, PartialEq, Eq, Structural)]
pub struct BinAtom {
    pub slot: Timestamp,
    pub byte: Option<u8>,
}

/// One element slot of an array node; `None` once deleted.
#[derive(Debug, Clone, Copy, PartialEq, Eq, Structural)]
pub struct ArrAtom {
    pub slot: Timestamp,
    pub value: Option<Timestamp>,
}

/// A node of the runtime graph. Vector entries are kept in increasing index
/// order.
#[derive(Debug)]
pub enum RuntimeNode {
    Con(ConCell),
    Val(Timestamp),
    Obj(Vec<(String, Timestamp)>),
    Vec(Vec<(u64, Timestamp)>),
    Str(Vec<StrAtom>),
    Bin(Vec<BinAtom>),
    Arr(Vec<ArrAtom>),
}

/// The content of a constant node.
pub enum ConCellV {
    Json(JsonView),
    Ref(Timestamp),
    Undef,
}

/// The content of a node.
pub enum NodeV {
    Con(ConCellV),
    Val(Timestamp),
    Obj(Seq<(Seq<char>, Timestamp)>),
    Vec(Seq<(u64, Timestamp)>),
    Str(Seq<(Timestamp, Option<char>)>),
    Bin(Seq<(Timestamp, Option<u8>)>),
    Arr(Seq<(Timestamp, Option<Timestamp>)>),
}

/// The content of string slots.
pub open spec fn str_atoms_view(atoms: Seq<StrAtom>) -> Seq<(Timestamp, Option<char>)> {
    atoms.map_values(|a: StrAtom| (a.slot, a.ch))
}

/// The content of binary slots.
pub open spec fn bin_atoms_view(atoms: Seq<BinAtom>) -> Seq<(Timestamp, Option<u8>)> {
    atoms.map_values(|a: BinAtom| (a.slot, a.byte))
}

/// The content of array slots.
pub open spec fn arr_atoms_view(atoms: Seq<ArrAtom>) -> Seq<(Timestamp, Option<Timestamp>)> {
    atoms.map_values(|a: ArrAtom| (a.slot, a.value))
}

/// The content of object entries.
pub open spec fn obj_entries_view(entries: Seq<(String, Timestamp)>) -> Seq<(Seq<char>, Timestamp)> {
    entries.map_values(|e: (String, Timestamp)| (e.0@, e.1))
}

impl ConCell {
    /// The content of the constant.
    pub open spec fn cv(&self) -> ConCellV {
        match self {
            ConCell::Json(v) => ConCellV::Json(v.jv()),
            ConCell::Ref(t) => ConCellV::Ref(*t),
            ConCell::Undef => ConCellV::Undef,
        }
    }
}

impl RuntimeNode {
    /// The content of the node.
    pub open spec fn nv(&self) -> NodeV {
        match self {
            RuntimeNode::Con(c) => NodeV::Con(c.cv()),
            RuntimeNode::Val(c) => NodeV::Val(*c),
            RuntimeNode::Obj(es) => NodeV::Obj(obj_entries_view(es@)),
            RuntimeNode::Vec(es) => NodeV::Vec(es@),
            RuntimeNode::Str(atoms) => NodeV::Str(str_atoms_view(atoms@)),
            RuntimeNode::Bin(atoms) => NodeV::Bin(bin_atoms_view(atoms@)),
            RuntimeNode::Arr(atoms) => NodeV::Arr(arr_atoms_view(atoms@)),
        }
    }
}

/// The identifier order: by time, then by session id.
pub open spec fn id_lt(a: Timestamp, b: Timestamp) -> bool {
    a.time < b.time || (a.time == b.time && a.sid < b.sid)
}

/// Whether `a` comes strictly before `b` by time, then by session id.
pub fn id_before(a: Timestamp, b: Timestamp) -> (res: bool)
    ensures
        res == id_lt(a, b),
{
    a.time < b.time || (a.time == b.time && a.sid < b.sid)
}

/// The system identifier `0.0`.
pub open spec fn is_system_origin(t: Timestamp) -> bool {
    t.sid == 0 && t.time == 0
}

/// The first position of an entry keyed `k` (the length when there is none).
pub open spec fn pos_of<V>(s: Seq<(Timestamp, V)>, k: Timestamp) -> int
    decreases s.len(),
{
    if s.len() == 0 {
        0
    } else if s[0].0 == k {
        0
    } else {
        1 + pos_of(s.drop_first(), k)
    }
}

/// `pos_of` is the first position with the key, or the length.
pub proof fn lemma_pos_of<V>(s: Seq<(Timestamp, V)>, k: Timestamp)
    ensures
        0 <= pos_of(s, k) <= s.len(),
        pos_of(s, k) < s.len() ==> s[pos_of(s, k)].0 == k,
        forall|j: int| 0 <= j < pos_of(s, k) ==> s[j].0 != k,
    decreases s.len(),
{
    if s.len() > 0 && s[0].0 != k {
        lemma_pos_of(s.drop_first(), k);
        assert forall|j: int| 0 <= j < pos_of(s, k) implies s[j].0 != k by {
            if j > 0 {
                assert(s[j] == s.drop_first()[j - 1]);
            }
        }
    }
}

/// The position found by a scan from the front is `pos_of`.
pub proof fn lemma_pos_of_at<V>(s: Seq<(Timestamp, V)>, k: Timestamp, i: int)
    requires
        0 <= i <= s.len(),
        i < s.len() ==> s[i].0 == k,
        forall|j: int| 0 <= j < i ==> s[j].0 != k,
    ensures
        pos_of(s, k) == i,
{
    lemma_pos_of(s, k);
}

/// `pos_of` depends on the keys alone.
pub proof fn lemma_pos_of_same_keys<V, W>(s: Seq<(Timestamp, V)>, t: Seq<(Timestamp, W)>, k: Timestamp)
    requires
        s.len() == t.len(),
        forall|j: int| 0 <= j < s.len() ==> s[j].0 == t[j].0,
    ensures
        pos_of(s, k) == pos_of(t, k),
{
    lemma_pos_of(s, k);
    lemma_pos_of(t, k);
    lemma_pos_of_at(t, k, pos_of(s, k));
}


/// The content of a node store: identifiers and node contents, in store order.
pub open spec fn store_view(nodes: Seq<(Timestamp, RuntimeNode)>) -> Seq<(Timestamp, NodeV)> {
    nodes.map_values(|e: (Timestamp, RuntimeNode)| (e.0, e.1.nv()))
}

/// Whether the store holds a node with identifier `k`.
pub open spec fn has_node(s: Seq<(Timestamp, NodeV)>, k: Timestamp) -> bool {
    pos_of(s, k) < s.len()
}

/// The node with identifier `k` (the first one, when it is held).
pub open spec fn node_at(s: Seq<(Timestamp, NodeV)>, k: Timestamp) -> NodeV
    recommends
        has_node(s, k),
{
    s[pos_of(s, k)].1
}

/// The store with the node `k` replaced by `n` (unchanged when `k` is not held).
pub open spec fn set_node(s: Seq<(Timestamp, NodeV)>, k: Timestamp, n: NodeV) -> Seq<(Timestamp, NodeV)> {
    if has_node(s, k) {
        s.update(pos_of(s, k), (k, n))
    } else {
        s
    }
}

/// The store with node `n` added under `k`, unless `k` is already held.
pub open spec fn add_node(s: Seq<(Timestamp, NodeV)>, k: Timestamp, n: NodeV) -> Seq<(Timestamp, NodeV)> {
    if has_node(s, k) {
        s
    } else {
        s.push((k, n))
    }
}

/// The store without the node `k`.
pub open spec fn remove_node(s: Seq<(Timestamp, NodeV)>, k: Timestamp) -> Seq<(Timestamp, NodeV)> {
    if has_node(s, k) {
        s.remove(pos_of(s, k))
    } else {
        s
    }
}

} // verus!
