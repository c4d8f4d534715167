//! Lookups in the runtime graph: node kinds, object fields, vector slots,
//! and the live slots of strings, binaries and arrays by position.

use vstd::prelude::*;
use crate::json::JsonValue;
use crate::patch::{Timespan, Timestamp};
use super::RuntimeModel;
use super::types::{
    ConCell, ConCellV, RuntimeNode, NodeV, StrAtom, BinAtom, ArrAtom, store_view, has_node, node_at,
    obj_entries_view, str_atoms_view, bin_atoms_view, arr_atoms_view,
};
use super::view::{node_json, opt_jv, max_index, visible_chars};

verus! {

// ---------------------------------------------------------------------------
// What the lookups give
// ---------------------------------------------------------------------------

/// The node `k` of the store, when it is held.
pub open spec fn node_of(s: Seq<(Timestamp, NodeV)>, k: Timestamp) -> Option<NodeV> {
    if has_node(s, k) {
        Some(node_at(s, k))
    } else {
        None
    }
}

/// The slots whose content is still present, in order.
pub open spec fn visible_slots<V>(atoms: Seq<(Timestamp, Option<V>)>) -> Seq<Timestamp>
    decreases atoms.len(),
{
    if atoms.len() == 0 {
        Seq::empty()
    } else {
        let rest = visible_slots(atoms.drop_last());
        if atoms.last().1 is Some {
            rest.push(atoms.last().0)
        } else {
            rest
        }
    }
}

/// The element identifiers still present in an array, in order.
pub open spec fn visible_values(atoms: Seq<(Timestamp, Option<Timestamp>)>) -> Seq<Timestamp>
    decreases atoms.len(),
{
    if atoms.len() == 0 {
        Seq::empty()
    } else {
        let rest = visible_values(atoms.drop_last());
        match atoms.last().1 {
            Some(v) => rest.push(v),
            None => rest,
        }
    }
}

/// The value of the last entry keyed `key`.
pub open spec fn last_entry(es: Seq<(Seq<char>, Timestamp)>, key: Seq<char>) -> Option<Timestamp>
    decreases es.len(),
{
    if es.len() == 0 {
        None
    } else if es.last().0 == key {
        Some(es.last().1)
    } else {
        last_entry(es.drop_last(), key)
    }
}

/// The field `key` of the object node `id`, or of the object a register
/// `id` points to.
pub open spec fn field_of(s: Seq<(Timestamp, NodeV)>, id: Timestamp, key: Seq<char>) -> Option<Timestamp> {
    match node_of(s, id) {
        Some(NodeV::Obj(es)) => last_entry(es, key),
        Some(NodeV::Val(child)) => match node_of(s, child) {
            Some(NodeV::Obj(es)) => last_entry(es, key),
            _ => None,
        },
        _ => None,
    }
}

/// The value of the first vector entry with index `index`.
pub open spec fn first_vec_entry(es: Seq<(u64, Timestamp)>, index: u64) -> Option<Timestamp>
    decreases es.len(),
{
    if es.len() == 0 {
        None
    } else if es[0].0 == index {
        Some(es[0].1)
    } else {
        first_vec_entry(es.drop_first(), index)
    }
}

/// Whether the node at position `j` of the store is a string whose live
/// text is `text`.
pub open spec fn text_node_at(s: Seq<(Timestamp, NodeV)>, j: int, text: Seq<char>) -> bool {
    s[j].1 matches NodeV::Str(atoms) && visible_chars(atoms) == text
}

/// The kinds of nodes, as the lookups tell them apart.
#[derive(Clone, Copy)]
pub enum NodeKind {
    Str,
    Arr,
    Bin,
    Obj,
    Vec,
    Val,
}

/// Whether a node is of the kind.
pub open spec fn is_kind(n: NodeV, kind: NodeKind) -> bool {
    match kind {
        NodeKind::Str => n is Str,
        NodeKind::Arr => n is Arr,
        NodeKind::Bin => n is Bin,
        NodeKind::Obj => n is Obj,
        NodeKind::Vec => n is Vec,
        NodeKind::Val => n is Val,
    }
}

/// Whether the store holds node `id` and it is of the kind.
pub open spec fn node_is(s: Seq<(Timestamp, NodeV)>, id: Timestamp, kind: NodeKind) -> bool {
    match node_of(s, id) {
        Some(n) => is_kind(n, kind),
        None => false,
    }
}

/// `id` when it is a node of the kind, else the child of the register `id`
/// when that is of the kind.
pub open spec fn resolve_kind(s: Seq<(Timestamp, NodeV)>, id: Timestamp, kind: NodeKind) -> Option<Timestamp> {
    if node_is(s, id, kind) {
        Some(id)
    } else {
        match node_of(s, id) {
            Some(NodeV::Val(child)) => if node_is(s, child, kind) {
                Some(child)
            } else {
                None
            },
            _ => None,
        }
    }
}

/// The live slots of node `id` when it is of the kind (string, binary or
/// array), else nothing.
pub open spec fn live_slots(s: Seq<(Timestamp, NodeV)>, id: Timestamp, kind: NodeKind) -> Option<Seq<Timestamp>> {
    match (node_of(s, id), kind) {
        (Some(NodeV::Str(atoms)), NodeKind::Str) => Some(visible_slots(atoms)),
        (Some(NodeV::Bin(atoms)), NodeKind::Bin) => Some(visible_slots(atoms)),
        (Some(NodeV::Arr(atoms)), NodeKind::Arr) => Some(visible_slots(atoms)),
        _ => None,
    }
}

/// The slot at live position `index`.
pub open spec fn find_at(slots: Option<Seq<Timestamp>>, index: int) -> Option<Timestamp> {
    match slots {
        Some(v) => if 0 <= index < v.len() {
            Some(v[index])
        } else {
            None
        },
        None => None,
    }
}

/// Slots gathered into runs: each slot extends the last run when it has
/// the run's session and the time right after it, else starts a new run.
pub open spec fn slot_runs(slots: Seq<Timestamp>) -> Seq<Timespan>
    decreases slots.len(),
{
    if slots.len() == 0 {
        Seq::empty()
    } else {
        let prev = slot_runs(slots.drop_last());
        let x = slots.last();
        if prev.len() > 0 && prev.last().sid == x.sid && prev.last().time + prev.last().span == x.time {
            prev.update(
                prev.len() - 1,
                Timespan { sid: prev.last().sid, time: prev.last().time, span: (prev.last().span + 1) as u64 },
            )
        } else {
            prev.push(Timespan { sid: x.sid, time: x.time, span: 1 })
        }
    }
}

/// The runs of the `len` live slots from position `index` on (fewer when
/// the slots end first).
pub open spec fn interval_runs(slots: Seq<Timestamp>, index: int, len: int) -> Seq<Timespan> {
    if len == 0 || index >= slots.len() {
        Seq::empty()
    } else {
        let end = if index + len < slots.len() {
            index + len
        } else {
            slots.len() as int
        };
        slot_runs(slots.subrange(index, end))
    }
}

/// Each run spans at least one slot and at most as many as there are slots.
proof fn lemma_slot_runs_bounds(slots: Seq<Timestamp>)
    requires
        slots.len() < u64::MAX,
    ensures
        slot_runs(slots).len() <= slots.len(),
        forall|j: int| 0 <= j < slot_runs(slots).len() ==> 1 <= #[trigger] slot_runs(slots)[j].span <= slots.len(),
    decreases slots.len(),
{
    if slots.len() > 0 {
        let prev = slot_runs(slots.drop_last());
        lemma_slot_runs_bounds(slots.drop_last());
        let r = slot_runs(slots);
        assert forall|j: int| 0 <= j < r.len() implies 1 <= #[trigger] r[j].span <= slots.len() by {
            if j < prev.len() {
                assert(prev[j].span <= slots.len() - 1);
            }
        }
    }
}

// ---------------------------------------------------------------------------
// Gathering live slots
// ---------------------------------------------------------------------------

fn live_str_slots(atoms: &Vec<StrAtom>) -> (res: Vec<Timestamp>)
    ensures
        res@ == visible_slots(str_atoms_view(atoms@)),
{
    let ghost av = str_atoms_view(atoms@);
    let mut out: Vec<Timestamp> = Vec::new();
    let mut i: usize = 0;
    while i < atoms.len()
        invariant
            i <= atoms@.len(),
            av == str_atoms_view(atoms@),
            out@ == visible_slots(av.take(i as int)),
        decreases atoms.len() - i,
    {
        assert(av.take(i + 1).drop_last() =~= av.take(i as int));
        if atoms[i].ch.is_some() {
            out.push(atoms[i].slot);
        }
        i = i + 1;
    }
    assert(av.take(atoms@.len() as int) =~= av);
    out
}

fn live_bin_slots(atoms: &Vec<BinAtom>) -> (res: Vec<Timestamp>)
    ensures
        res@ == visible_slots(bin_atoms_view(atoms@)),
{
    let ghost av = bin_atoms_view(atoms@);
    let mut out: Vec<Timestamp> = Vec::new();
    let mut i: usize = 0;
    while i < atoms.len()
        invariant
            i <= atoms@.len(),
            av == bin_atoms_view(atoms@),
            out@ == visible_slots(av.take(i as int)),
        decreases atoms.len() - i,
    {
        assert(av.take(i + 1).drop_last() =~= av.take(i as int));
        if atoms[i].byte.is_some() {
            out.push(atoms[i].slot);
        }
        i = i + 1;
    }
    assert(av.take(atoms@.len() as int) =~= av);
    out
}

fn live_arr_slots(atoms: &Vec<ArrAtom>) -> (res: Vec<Timestamp>)
    ensures
        res@ == visible_slots(arr_atoms_view(atoms@)),
{
    let ghost av = arr_atoms_view(atoms@);
    let mut out: Vec<Timestamp> = Vec::new();
    let mut i: usize = 0;
    while i < atoms.len()
        invariant
            i <= atoms@.len(),
            av == arr_atoms_view(atoms@),
            out@ == visible_slots(av.take(i as int)),
        decreases atoms.len() - i,
    {
        assert(av.take(i + 1).drop_last() =~= av.take(i as int));
        if atoms[i].value.is_some() {
            out.push(atoms[i].slot);
        }
        i = i + 1;
    }
    assert(av.take(atoms@.len() as int) =~= av);
    out
}

fn live_arr_values(atoms: &Vec<ArrAtom>) -> (res: Vec<Timestamp>)
    ensures
        res@ == visible_values(arr_atoms_view(atoms@)),
{
    let ghost av = arr_atoms_view(atoms@);
    let mut out: Vec<Timestamp> = Vec::new();
    let mut i: usize = 0;
    while i < atoms.len()
        invariant
            i <= atoms@.len(),
            av == arr_atoms_view(atoms@),
            out@ == visible_values(av.take(i as int)),
        decreases atoms.len() - i,
    {
        assert(av.take(i + 1).drop_last() =~= av.take(i as int));
        if let Some(v) = atoms[i].value {
            out.push(v);
        }
        i = i + 1;
    }
    assert(av.take(atoms@.len() as int) =~= av);
    out
}

/// The runs of the `len` slots from position `index` on: consecutive times
/// of one session share a run.
pub fn collect_visible_interval_spans(slots: &Vec<Timestamp>, index: usize, len: usize) -> (res: Vec<Timespan>)
    ensures
        res@ == interval_runs(slots@, index as int, len as int),
{
    if len == 0 || index >= slots.len() {
        return Vec::new();
    }
    let end: usize = if len < slots.len() - index { index + len } else { slots.len() };
    let ghost sub = slots@.subrange(index as int, end as int);
    let mut out: Vec<Timespan> = Vec::new();
    let mut i: usize = index;
    assert(sub.take(0) =~= Seq::<Timestamp>::empty());
    while i < end
        invariant
            index <= i <= end <= slots@.len(),
            sub == slots@.subrange(index as int, end as int),
            out@ == slot_runs(sub.take(i - index)),
        decreases end - i,
    {
        let slot = slots[i];
        proof {
            lemma_slot_runs_bounds(sub.take(i - index));
            assert(sub.take(i - index + 1).drop_last() =~= sub.take(i - index));
            assert(sub.take(i - index + 1).last() == slot);
        }
        let n = out.len();
        if n > 0 && out[n - 1].sid == slot.sid && out[n - 1].span <= u64::MAX - out[n - 1].time
            && out[n - 1].time + out[n - 1].span == slot.time {
            let last = out[n - 1];
            out.set(n - 1, Timespan { sid: last.sid, time: last.time, span: last.span + 1 });
        } else {
            out.push(Timespan { sid: slot.sid, time: slot.time, span: 1 });
        }
        i = i + 1;
    }
    assert(sub.take(end - index) =~= sub);
    out
}

impl RuntimeModel {
    /// The node `id`, when the store holds it.
    fn node_ref(&self, id: Timestamp) -> (res: Option<&RuntimeNode>)
        ensures
            match res {
                Some(n) => node_of(self.graph().nodes, id) == Some(n.nv()),
                None => node_of(self.graph().nodes, id) is None,
            },
    {
        proof {
            self.lemma_graph();
        }
        let p = self.find_node(id);
        if p < self.nodes.len() {
            proof {
                assert(store_view(self.nodes@)[p as int] == (self.nodes@[p as int].0, self.nodes@[p as int].1.nv()));
            }
            Some(&self.nodes[p].1)
        } else {
            None
        }
    }

    fn node_kind_is(&self, id: Timestamp, kind: NodeKind) -> (res: bool)
        ensures
            res == node_is(self.graph().nodes, id, kind),
    {
        match self.node_ref(id) {
            None => false,
            Some(n) => match (n, kind) {
                (RuntimeNode::Str(_), NodeKind::Str) => true,
                (RuntimeNode::Arr(_), NodeKind::Arr) => true,
                (RuntimeNode::Bin(_), NodeKind::Bin) => true,
                (RuntimeNode::Obj(_), NodeKind::Obj) => true,
                (RuntimeNode::Vec(_), NodeKind::Vec) => true,
                (RuntimeNode::Val(_), NodeKind::Val) => true,
                _ => false,
            },
        }
    }

    fn resolve(&self, id: Timestamp, kind: NodeKind) -> (res: Option<Timestamp>)
        ensures
            res == resolve_kind(self.graph().nodes, id, kind),
    {
        if self.node_kind_is(id, kind) {
            return Some(id);
        }
        let child = match self.val_child(id) {
            Some(c) => c,
            None => {
                return None;
            },
        };
        if self.node_kind_is(child, kind) {
            Some(child)
        } else {
            None
        }
    }

    /// The last entry keyed `key` of the entries.
    fn last_entry_of(entries: &Vec<(String, Timestamp)>, key: &String) -> (res: Option<Timestamp>)
        ensures
            res == last_entry(obj_entries_view(entries@), key@),
    {
        let ghost ev = obj_entries_view(entries@);
        let mut i: usize = entries.len();
        assert(ev.take(i as int) =~= ev);
        while i > 0
            invariant
                i <= entries@.len(),
                ev == obj_entries_view(entries@),
                last_entry(ev, key@) == last_entry(ev.take(i as int), key@),
            decreases i,
        {
            assert(ev.take(i as int).drop_last() =~= ev.take(i - 1));
            if entries[i - 1].0 == *key {
                return Some(entries[i - 1].1);
            }
            i = i - 1;
        }
        assert(ev.take(0) =~= Seq::<(Seq<char>, Timestamp)>::empty());
        None
    }

    fn field(&self, id: Timestamp, key: &str) -> (res: Option<Timestamp>)
        ensures
            res == field_of(self.graph().nodes, id, key@),
    {
        let key = key.to_owned();
        match self.node_ref(id) {
            Some(RuntimeNode::Obj(entries)) => Self::last_entry_of(entries, &key),
            Some(RuntimeNode::Val(child)) => match self.node_ref(*child) {
                Some(RuntimeNode::Obj(entries)) => Self::last_entry_of(entries, &key),
                _ => None,
            },
            _ => None,
        }
    }

    /// The field `key` of the root object (or of the object the root
    /// register points to): the last entry with that key.
    pub fn root_object_field(&self, key: &str) -> (res: Option<Timestamp>)
        ensures
            res == match self.graph().root {
                Some(r) => field_of(self.graph().nodes, r, key@),
                None => None,
            },
    {
        proof {
            self.lemma_graph();
        }
        match self.root {
            Some(r) => self.field(r, key),
            None => None,
        }
    }

    /// The root's identifier.
    pub fn root_id(&self) -> (res: Option<Timestamp>)
        ensures
            res == self.graph().root,
    {
        proof {
            self.lemma_graph();
        }
        self.root
    }

    /// The field `key` of the object node `obj` (or of the object the
    /// register `obj` points to): the last entry with that key.
    pub fn object_field(&self, obj: Timestamp, key: &str) -> (res: Option<Timestamp>)
        ensures
            res == field_of(self.graph().nodes, obj, key@),
    {
        self.field(obj, key)
    }

    /// Whether `id` is a string node.
    pub fn node_is_string(&self, id: Timestamp) -> (res: bool)
        ensures
            res == node_is(self.graph().nodes, id, NodeKind::Str),
    {
        self.node_kind_is(id, NodeKind::Str)
    }

    /// Whether `id` is an array node.
    pub fn node_is_array(&self, id: Timestamp) -> (res: bool)
        ensures
            res == node_is(self.graph().nodes, id, NodeKind::Arr),
    {
        self.node_kind_is(id, NodeKind::Arr)
    }

    /// Whether `id` is a binary node.
    pub fn node_is_bin(&self, id: Timestamp) -> (res: bool)
        ensures
            res == node_is(self.graph().nodes, id, NodeKind::Bin),
    {
        self.node_kind_is(id, NodeKind::Bin)
    }

    /// Whether `id` is an object node.
    pub fn node_is_object(&self, id: Timestamp) -> (res: bool)
        ensures
            res == node_is(self.graph().nodes, id, NodeKind::Obj),
    {
        self.node_kind_is(id, NodeKind::Obj)
    }

    /// Whether `id` is a vector node.
    pub fn node_is_vec(&self, id: Timestamp) -> (res: bool)
        ensures
            res == node_is(self.graph().nodes, id, NodeKind::Vec),
    {
        self.node_kind_is(id, NodeKind::Vec)
    }

    /// Whether `id` is a register node.
    pub fn node_is_val(&self, id: Timestamp) -> (res: bool)
        ensures
            res == node_is(self.graph().nodes, id, NodeKind::Val),
    {
        self.node_kind_is(id, NodeKind::Val)
    }

    /// The value of the register `id`.
    pub fn val_child(&self, id: Timestamp) -> (res: Option<Timestamp>)
        ensures
            res == match node_of(self.graph().nodes, id) {
                Some(NodeV::Val(c)) => Some(c),
                _ => None,
            },
    {
        match self.node_ref(id) {
            Some(RuntimeNode::Val(c)) => Some(*c),
            _ => None,
        }
    }

    /// `id` when it is a string node, else the string a register `id`
    /// points to.
    pub fn resolve_string_node(&self, id: Timestamp) -> (res: Option<Timestamp>)
        ensures
            res == resolve_kind(self.graph().nodes, id, NodeKind::Str),
    {
        self.resolve(id, NodeKind::Str)
    }

    /// `id` when it is a binary node, else the binary a register `id`
    /// points to.
    pub fn resolve_bin_node(&self, id: Timestamp) -> (res: Option<Timestamp>)
        ensures
            res == resolve_kind(self.graph().nodes, id, NodeKind::Bin),
    {
        self.resolve(id, NodeKind::Bin)
    }

    /// `id` when it is an array node, else the array a register `id`
    /// points to.
    pub fn resolve_array_node(&self, id: Timestamp) -> (res: Option<Timestamp>)
        ensures
            res == resolve_kind(self.graph().nodes, id, NodeKind::Arr),
    {
        self.resolve(id, NodeKind::Arr)
    }

    /// `id` when it is a vector node, else the vector a register `id`
    /// points to.
    pub fn resolve_vec_node(&self, id: Timestamp) -> (res: Option<Timestamp>)
        ensures
            res == resolve_kind(self.graph().nodes, id, NodeKind::Vec),
    {
        self.resolve(id, NodeKind::Vec)
    }

    /// `id` when it is an object node, else the object a register `id`
    /// points to.
    pub fn resolve_object_node(&self, id: Timestamp) -> (res: Option<Timestamp>)
        ensures
            res == resolve_kind(self.graph().nodes, id, NodeKind::Obj),
    {
        self.resolve(id, NodeKind::Obj)
    }

    /// The string node whose live text is `expected`, when exactly one
    /// node's is.
    pub fn find_string_node_by_value(&self, expected: &str) -> (res: Option<Timestamp>)
        ensures
            ({
                let s = self.graph().nodes;
                match res {
                    Some(id) => exists|j: int|
                        0 <= j < s.len() && #[trigger] text_node_at(s, j, expected@) && s[j].0 == id
                            && forall|k: int| 0 <= k < s.len() && k != j ==> !#[trigger] text_node_at(s, k, expected@),
                    None => (forall|j: int| 0 <= j < s.len() ==> !#[trigger] text_node_at(s, j, expected@))
                        || exists|j: int, k: int|
                        0 <= j < s.len() && 0 <= k < s.len() && j != k && #[trigger] text_node_at(s, j, expected@)
                            && #[trigger] text_node_at(s, k, expected@),
                }
            }),
    {
        proof {
            self.lemma_graph();
        }
        let ghost s = store_view(self.nodes@);
        let ghost e = expected@;
        let target = expected.to_owned();
        let mut found: Option<usize> = None;
        let mut i: usize = 0;
        while i < self.nodes.len()
            invariant
                i <= self.nodes@.len(),
                s == store_view(self.nodes@),
                s == self.graph().nodes,
                expected@ == e,
                target@ == e,
                match found {
                    Some(j) => j < i && text_node_at(s, j as int, e) && forall|k: int|
                        0 <= k < i && k != j ==> !#[trigger] text_node_at(s, k, e),
                    None => forall|k: int| 0 <= k < i ==> !#[trigger] text_node_at(s, k, e),
                },
            decreases self.nodes.len() - i,
        {
            assert(s[i as int] == (self.nodes@[i as int].0, self.nodes@[i as int].1.nv()));
            if let RuntimeNode::Str(atoms) = &self.nodes[i].1 {
                let text = super::view::live_text(atoms);
                if text == target {
                    assert(text_node_at(s, i as int, e));
                    if let Some(j) = found {
                        assert(text_node_at(s, j as int, e));
                        assert(j != i);
                        assert(s.len() == self.nodes@.len());
                        assert(exists|a: int, b: int|
                            0 <= a < s.len() && 0 <= b < s.len() && a != b && #[trigger] text_node_at(s, a, e)
                                && #[trigger] text_node_at(s, b, e));
                        return None;
                    }
                    found = Some(i);
                }
            }
            i = i + 1;
        }
        match found {
            Some(j) => {
                assert(s[j as int].0 == self.nodes@[j as int].0);
                Some(self.nodes[j].0)
            },
            None => None,
        }
    }

    /// The value at index `index` of the vector node `id`.
    pub fn vec_index_value(&self, id: Timestamp, index: u64) -> (res: Option<Timestamp>)
        ensures
            res == match node_of(self.graph().nodes, id) {
                Some(NodeV::Vec(es)) => first_vec_entry(es, index),
                _ => None,
            },
    {
        match self.node_ref(id) {
            Some(RuntimeNode::Vec(es)) => {
                let mut i: usize = 0;
                assert(es@.skip(0) =~= es@);
                while i < es.len()
                    invariant
                        i <= es@.len(),
                        node_of(self.graph().nodes, id) == Some(NodeV::Vec(es@)),
                        first_vec_entry(es@, index) == first_vec_entry(es@.skip(i as int), index),
                    decreases es.len() - i,
                {
                    assert(es@.skip(i as int).drop_first() =~= es@.skip(i + 1));
                    assert(es@.skip(i as int)[0] == es@[i as int]);
                    if es[i].0 == index {
                        assert(first_vec_entry(es@.skip(i as int), index) == Some(es@[i as int].1));
                        return Some(es[i].1);
                    }
                    i = i + 1;
                }
                None
            },
            _ => None,
        }
    }

    /// The greatest index of the vector node `id` (none for an empty one).
    pub fn vec_max_index(&self, id: Timestamp) -> (res: Option<u64>)
        ensures
            res == match node_of(self.graph().nodes, id) {
                Some(NodeV::Vec(es)) => if es.len() == 0 {
                    None
                } else {
                    Some(max_index(es))
                },
                _ => None,
            },
    {
        match self.node_ref(id) {
            Some(RuntimeNode::Vec(es)) => {
                if es.len() == 0 {
                    return None;
                }
                let mut m: u64 = 0;
                let mut i: usize = 0;
                while i < es.len()
                    invariant
                        i <= es@.len(),
                        m == max_index(es@.take(i as int)),
                    decreases es.len() - i,
                {
                    assert(es@.take(i + 1).drop_last() =~= es@.take(i as int));
                    if es[i].0 > m {
                        m = es[i].0;
                    }
                    i = i + 1;
                }
                assert(es@.take(es@.len() as int) =~= es@);
                Some(m)
            },
            _ => None,
        }
    }

    /// The JSON view of node `id`, through at most as many nodes as the
    /// store holds; nothing for an absent node, an undefined constant, or a
    /// view that does not complete.
    pub fn node_json_value(&self, id: Timestamp) -> (res: Option<JsonValue>)
        ensures
            opt_jv(res) == match node_json(self.graph().nodes, id, self.graph().nodes.len()) {
                Some(Some(v)) => Some(v),
                _ => None,
            },
    {
        proof {
            self.lemma_graph();
        }
        match self.view_rec(id, self.nodes.len()) {
            Some(Some(v)) => Some(v),
            _ => None,
        }
    }

    /// Whether node `id` is absent or an undefined constant.
    pub fn node_is_deleted_or_missing(&self, id: Timestamp) -> (res: bool)
        ensures
            res == match node_of(self.graph().nodes, id) {
                None => true,
                Some(NodeV::Con(ConCellV::Undef)) => true,
                _ => false,
            },
    {
        match self.node_ref(id) {
            None => true,
            Some(RuntimeNode::Con(ConCell::Undef)) => true,
            _ => false,
        }
    }

    /// The live character slots of the string node `id`.
    pub fn string_visible_slots(&self, id: Timestamp) -> (res: Option<Vec<Timestamp>>)
        ensures
            match res {
                Some(v) => live_slots(self.graph().nodes, id, NodeKind::Str) == Some(v@),
                None => live_slots(self.graph().nodes, id, NodeKind::Str) is None,
            },
    {
        match self.node_ref(id) {
            Some(RuntimeNode::Str(atoms)) => Some(live_str_slots(atoms)),
            _ => None,
        }
    }

    /// The live element slots of the array node `id`.
    pub fn array_visible_slots(&self, id: Timestamp) -> (res: Option<Vec<Timestamp>>)
        ensures
            match res {
                Some(v) => live_slots(self.graph().nodes, id, NodeKind::Arr) == Some(v@),
                None => live_slots(self.graph().nodes, id, NodeKind::Arr) is None,
            },
    {
        match self.node_ref(id) {
            Some(RuntimeNode::Arr(atoms)) => Some(live_arr_slots(atoms)),
            _ => None,
        }
    }

    /// The live element identifiers of the array node `id`.
    pub fn array_visible_values(&self, id: Timestamp) -> (res: Option<Vec<Timestamp>>)
        ensures
            match res {
                Some(v) => node_of(self.graph().nodes, id) matches Some(NodeV::Arr(atoms)) && v@
                    == visible_values(atoms),
                None => !(node_of(self.graph().nodes, id) is Some && node_of(self.graph().nodes, id)->0 is Arr),
            },
    {
        match self.node_ref(id) {
            Some(RuntimeNode::Arr(atoms)) => Some(live_arr_values(atoms)),
            _ => None,
        }
    }

    /// The live byte slots of the binary node `id`.
    pub fn bin_visible_slots(&self, id: Timestamp) -> (res: Option<Vec<Timestamp>>)
        ensures
            match res {
                Some(v) => live_slots(self.graph().nodes, id, NodeKind::Bin) == Some(v@),
                None => live_slots(self.graph().nodes, id, NodeKind::Bin) is None,
            },
    {
        match self.node_ref(id) {
            Some(RuntimeNode::Bin(atoms)) => Some(live_bin_slots(atoms)),
            _ => None,
        }
    }

    /// The slot of the live element at position `index` of the array `id`.
    pub fn array_find(&self, id: Timestamp, index: usize) -> (res: Option<Timestamp>)
        ensures
            res == find_at(live_slots(self.graph().nodes, id, NodeKind::Arr), index as int),
    {
        match self.array_visible_slots(id) {
            Some(v) => if index < v.len() {
                Some(v[index])
            } else {
                None
            },
            None => None,
        }
    }

    /// The runs of the slots of the `len` live elements of the array `id`
    /// from position `index` on.
    pub fn array_find_interval(&self, id: Timestamp, index: usize, len: usize) -> (res: Vec<Timespan>)
        ensures
            res@ == match live_slots(self.graph().nodes, id, NodeKind::Arr) {
                Some(v) => interval_runs(v, index as int, len as int),
                None => Seq::empty(),
            },
    {
        match self.array_visible_slots(id) {
            Some(v) => collect_visible_interval_spans(&v, index, len),
            None => Vec::new(),
        }
    }

    /// The slot of the live byte at position `index` of the binary `id`.
    pub fn bin_find(&self, id: Timestamp, index: usize) -> (res: Option<Timestamp>)
        ensures
            res == find_at(live_slots(self.graph().nodes, id, NodeKind::Bin), index as int),
    {
        match self.bin_visible_slots(id) {
            Some(v) => if index < v.len() {
                Some(v[index])
            } else {
                None
            },
            None => None,
        }
    }

    /// The runs of the slots of the `len` live bytes of the binary `id`
    /// from position `index` on.
    pub fn bin_find_interval(&self, id: Timestamp, index: usize, len: usize) -> (res: Vec<Timespan>)
        ensures
            res@ == match live_slots(self.graph().nodes, id, NodeKind::Bin) {
                Some(v) => interval_runs(v, index as int, len as int),
                None => Seq::empty(),
            },
    {
        match self.bin_visible_slots(id) {
            Some(v) => collect_visible_interval_spans(&v, index, len),
            None => Vec::new(),
        }
    }

    /// The slot of the live character at position `index` of the string `id`.
    pub fn string_find(&self, id: Timestamp, index: usize) -> (res: Option<Timestamp>)
        ensures
            res == find_at(live_slots(self.graph().nodes, id, NodeKind::Str), index as int),
    {
        match self.string_visible_slots(id) {
            Some(v) => if index < v.len() {
                Some(v[index])
            } else {
                None
            },
            None => None,
        }
    }

    /// The runs of the slots of the `len` live characters of the string `id`
    /// from position `index` on.
    pub fn string_find_interval(&self, id: Timestamp, index: usize, len: usize) -> (res: Vec<Timespan>)
        ensures
            res@ == match live_slots(self.graph().nodes, id, NodeKind::Str) {
                Some(v) => interval_runs(v, index as int, len as int),
                None => Seq::empty(),
            },
    {
        match self.string_visible_slots(id) {
            Some(v) => collect_visible_interval_spans(&v, index, len),
            None => Vec::new(),
        }
    }
}

} // verus!
