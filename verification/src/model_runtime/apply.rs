//! Application of patch operations to the runtime graph.
//!
//! Registers and map entries keep the greatest identifier written to them
//! (by time, then session id); a value that loses its place is removed from
//! the store together with the subtree under it.

use vstd::prelude::*;
use crate::patch::{Timestamp, Timespan, DecodedOp, ConValue};
use super::{RuntimeModel, GraphView, ApplyError};
use crate::text::str_chars;
use super::rga::{rga_insert_index, find_insert_index_rga, slot_index, splice_vec, str_slots, bin_slots, arr_slots, slots_of, lemma_pos_of_slots, lemma_seq_pos};
use super::types::{ConCell, RuntimeNode, NodeV, ConCellV, StrAtom, BinAtom, ArrAtom, store_view, has_node, node_at, set_node, add_node, remove_node, pos_of, lemma_pos_of, lemma_pos_of_at, is_system_origin, id_lt, id_before, obj_entries_view, str_atoms_view, bin_atoms_view, arr_atoms_view};

verus! {

// ---------------------------------------------------------------------------
// Removal of subtrees
// ---------------------------------------------------------------------------

/// The references a node holds to other nodes, in order (`None` for a
/// deleted array slot).
pub open spec fn child_refs(n: NodeV) -> Seq<Option<Timestamp>> {
    match n {
        NodeV::Val(c) => seq![Some(c)],
        NodeV::Obj(es) => es.map_values(|e: (Seq<char>, Timestamp)| Some(e.1)),
        NodeV::Vec(es) => es.map_values(|e: (u64, Timestamp)| Some(e.1)),
        NodeV::Arr(atoms) => atoms.map_values(|a: (Timestamp, Option<Timestamp>)| a.1),
        _ => Seq::empty(),
    }
}

/// Removes the node `v` and, depth first, what its references lead to,
/// taking at most `fuel` steps; the system identifier and absent nodes stop
/// the descent.
pub open spec fn gc_fuel(s: Seq<(Timestamp, NodeV)>, v: Timestamp, fuel: nat) -> Seq<(Timestamp, NodeV)>
    decreases fuel, 0nat,
{
    if fuel == 0 || is_system_origin(v) || !has_node(s, v) {
        s
    } else {
        gc_refs(remove_node(s, v), child_refs(node_at(s, v)), (fuel - 1) as nat)
    }
}

/// Removes, in order, the subtrees under each of the references.
pub open spec fn gc_refs(s: Seq<(Timestamp, NodeV)>, cs: Seq<Option<Timestamp>>, fuel: nat) -> Seq<(Timestamp, NodeV)>
    decreases fuel, cs.len() + 1,
{
    if cs.len() == 0 {
        s
    } else {
        let s1 = match cs[0] {
            Some(c) => gc_fuel(s, c, fuel),
            None => s,
        };
        gc_refs(s1, cs.drop_first(), fuel)
    }
}

/// Removes the subtree under `v` from the store.
pub open spec fn gc_node(s: Seq<(Timestamp, NodeV)>, v: Timestamp) -> Seq<(Timestamp, NodeV)> {
    gc_fuel(s, v, s.len())
}

/// Removes, one after the other, the subtrees under the identifiers.
pub open spec fn gc_all(s: Seq<(Timestamp, NodeV)>, ids: Seq<Timestamp>) -> Seq<(Timestamp, NodeV)>
    decreases ids.len(),
{
    if ids.len() == 0 {
        s
    } else {
        gc_node(gc_all(s, ids.drop_last()), ids.last())
    }
}

/// Removal never grows the store.
proof fn lemma_gc_len(s: Seq<(Timestamp, NodeV)>, v: Timestamp, fuel: nat)
    ensures
        gc_fuel(s, v, fuel).len() <= s.len(),
    decreases fuel, 0nat,
{
    lemma_pos_of(s, v);
    if !(fuel == 0 || is_system_origin(v) || !has_node(s, v)) {
        lemma_gc_refs_len(remove_node(s, v), child_refs(node_at(s, v)), (fuel - 1) as nat);
    }
}

proof fn lemma_gc_refs_len(s: Seq<(Timestamp, NodeV)>, cs: Seq<Option<Timestamp>>, fuel: nat)
    ensures
        gc_refs(s, cs, fuel).len() <= s.len(),
    decreases fuel, cs.len() + 1,
{
    if cs.len() > 0 {
        let s1 = match cs[0] {
            Some(c) => gc_fuel(s, c, fuel),
            None => s,
        };
        if let Some(c) = cs[0] {
            lemma_gc_len(s, c, fuel);
        }
        lemma_gc_refs_len(s1, cs.drop_first(), fuel);
    }
}

/// Once the fuel covers the store, more fuel changes nothing.
proof fn lemma_gc_fuel(s: Seq<(Timestamp, NodeV)>, v: Timestamp, f1: nat, f2: nat)
    requires
        f1 >= s.len(),
        f2 >= s.len(),
    ensures
        gc_fuel(s, v, f1) == gc_fuel(s, v, f2),
    decreases f1 + f2, 0nat,
{
    lemma_pos_of(s, v);
    if !(is_system_origin(v) || !has_node(s, v)) {
        assert(f1 > 0 && f2 > 0);
        lemma_gc_refs_fuel(remove_node(s, v), child_refs(node_at(s, v)), (f1 - 1) as nat, (f2 - 1) as nat);
    }
}

proof fn lemma_gc_refs_fuel(s: Seq<(Timestamp, NodeV)>, cs: Seq<Option<Timestamp>>, f1: nat, f2: nat)
    requires
        f1 >= s.len(),
        f2 >= s.len(),
    ensures
        gc_refs(s, cs, f1) == gc_refs(s, cs, f2),
    decreases f1 + f2, cs.len() + 1,
{
    if cs.len() > 0 {
        if let Some(c) = cs[0] {
            lemma_gc_fuel(s, c, f1, f2);
            lemma_gc_len(s, c, f1);
            lemma_gc_refs_fuel(gc_fuel(s, c, f1), cs.drop_first(), f1, f2);
        } else {
            lemma_gc_refs_fuel(s, cs.drop_first(), f1, f2);
        }
    }
}

/// The removal under `v` never grows the store.
proof fn lemma_gc_node_len(s: Seq<(Timestamp, NodeV)>, v: Timestamp)
    ensures
        gc_node(s, v).len() <= s.len(),
{
    lemma_gc_len(s, v, s.len());
}


// ---------------------------------------------------------------------------
// What each operation does to the graph
// ---------------------------------------------------------------------------

/// The first position of an object entry keyed `k` (the length when none).
pub open spec fn key_pos(es: Seq<(Seq<char>, Timestamp)>, k: Seq<char>) -> int
    decreases es.len(),
{
    if es.len() == 0 {
        0
    } else if es[0].0 == k {
        0
    } else {
        1 + key_pos(es.drop_first(), k)
    }
}

/// `key_pos` is the first position with the key, or the length.
pub proof fn lemma_key_pos(es: Seq<(Seq<char>, Timestamp)>, k: Seq<char>, i: int)
    requires
        0 <= i <= es.len(),
        i < es.len() ==> es[i].0 == k,
        forall|j: int| 0 <= j < i ==> es[j].0 != k,
    ensures
        key_pos(es, k) == i,
    decreases es.len(),
{
    if es.len() > 0 && i > 0 {
        assert forall|j: int| 0 <= j < i - 1 implies es.drop_first()[j].0 != k by {
            assert(es.drop_first()[j] == es[j + 1]);
        }
        lemma_key_pos(es.drop_first(), k, i - 1);
    }
}

/// The first position of a vector entry at index `idx` (the length when none).
pub open spec fn index_pos(es: Seq<(u64, Timestamp)>, idx: u64) -> int
    decreases es.len(),
{
    if es.len() == 0 {
        0
    } else if es[0].0 == idx {
        0
    } else {
        1 + index_pos(es.drop_first(), idx)
    }
}

/// The first position of a vector entry whose index exceeds `idx` (the length
/// when none): where a new entry at `idx` keeps the entries in index order.
pub open spec fn index_insert_pos(es: Seq<(u64, Timestamp)>, idx: u64) -> int
    decreases es.len(),
{
    if es.len() == 0 {
        0
    } else if es[0].0 > idx {
        0
    } else {
        1 + index_insert_pos(es.drop_first(), idx)
    }
}

/// The graph with node `n` added under `id`, unless `id` is already held.
pub open spec fn new_node(g: GraphView, id: Timestamp, n: NodeV) -> GraphView {
    GraphView { nodes: add_node(g.nodes, id, n), root: g.root }
}

/// Writing `val` into the register `obj` (the system identifier meaning the
/// document root): the write wins when `val` exists and comes after what the
/// register holds (and, for a register node, after the register itself).
pub open spec fn ins_val(g: GraphView, obj: Timestamp, val: Timestamp) -> GraphView {
    if !has_node(g.nodes, val) {
        g
    } else if is_system_origin(obj) {
        match g.root {
            None => GraphView { nodes: g.nodes, root: Some(val) },
            Some(cur) => if id_lt(cur, val) {
                GraphView { nodes: gc_node(g.nodes, cur), root: Some(val) }
            } else {
                g
            },
        }
    } else if has_node(g.nodes, obj) {
        match node_at(g.nodes, obj) {
            NodeV::Val(old) => if (old.sid != 0 && !id_lt(old, val)) || !id_lt(obj, val) {
                g
            } else {
                let s1 = set_node(g.nodes, obj, NodeV::Val(val));
                GraphView { nodes: if old != val { gc_node(s1, old) } else { s1 }, root: g.root }
            },
            _ => g,
        }
    } else {
        g
    }
}

/// An empty document whose view is an empty object takes the object `obj`
/// with time 1 as its root on the first write into it.
pub open spec fn infer_root(g: GraphView, infer: bool, obj: Timestamp) -> GraphView {
    if g.root is None && infer && obj.time == 1 {
        GraphView { nodes: add_node(g.nodes, obj, NodeV::Obj(Seq::empty())), root: Some(obj) }
    } else {
        g
    }
}

/// One key write into object entries: a value that exists and comes after
/// the object is set under its key when the key is new or its value comes
/// before it; a replaced value is added to the removal list.
pub open spec fn obj_put_one(
    st: (Seq<(Seq<char>, Timestamp)>, Seq<Timestamp>),
    kv: (Seq<char>, Timestamp),
    nodes: Seq<(Timestamp, NodeV)>,
    obj: Timestamp,
) -> (Seq<(Seq<char>, Timestamp)>, Seq<Timestamp>) {
    let (es, olds) = st;
    let (k, vid) = kv;
    if has_node(nodes, vid) && obj.time < vid.time {
        let p = key_pos(es, k);
        if p < es.len() {
            if id_lt(es[p].1, vid) {
                (es.update(p, (es[p].0, vid)), olds.push(es[p].1))
            } else {
                (es, olds)
            }
        } else {
            (es.push((k, vid)), olds)
        }
    } else {
        (es, olds)
    }
}

/// The key writes in order, from entries `es`.
pub open spec fn obj_put_all(
    es: Seq<(Seq<char>, Timestamp)>,
    data: Seq<(Seq<char>, Timestamp)>,
    nodes: Seq<(Timestamp, NodeV)>,
    obj: Timestamp,
) -> (Seq<(Seq<char>, Timestamp)>, Seq<Timestamp>)
    decreases data.len(),
{
    if data.len() == 0 {
        (es, Seq::empty())
    } else {
        obj_put_one(obj_put_all(es, data.drop_last(), nodes, obj), data.last(), nodes, obj)
    }
}

/// Writing keys into the object `obj`.
pub open spec fn ins_obj(g: GraphView, infer: bool, obj: Timestamp, data: Seq<(Seq<char>, Timestamp)>) -> GraphView {
    let g1 = infer_root(g, infer, obj);
    if has_node(g1.nodes, obj) {
        match node_at(g1.nodes, obj) {
            NodeV::Obj(es) => {
                let (es2, olds) = obj_put_all(es, data, g1.nodes, obj);
                GraphView { nodes: gc_all(set_node(g1.nodes, obj, NodeV::Obj(es2)), olds), root: g1.root }
            },
            _ => g1,
        }
    } else {
        g1
    }
}

/// One index write into vector entries, as for objects; a new index goes
/// before the first greater one.
pub open spec fn vec_put_one(
    st: (Seq<(u64, Timestamp)>, Seq<Timestamp>),
    iv: (u64, Timestamp),
    nodes: Seq<(Timestamp, NodeV)>,
    obj: Timestamp,
) -> (Seq<(u64, Timestamp)>, Seq<Timestamp>) {
    let (es, olds) = st;
    let (idx, vid) = iv;
    if has_node(nodes, vid) && obj.time < vid.time {
        let p = index_pos(es, idx);
        if p < es.len() {
            if id_lt(es[p].1, vid) {
                (es.update(p, (idx, vid)), olds.push(es[p].1))
            } else {
                (es, olds)
            }
        } else {
            let q = index_insert_pos(es, idx);
            (es.insert(q, (idx, vid)), olds)
        }
    } else {
        (es, olds)
    }
}

/// The index writes in order, from entries `es`.
pub open spec fn vec_put_all(
    es: Seq<(u64, Timestamp)>,
    data: Seq<(u64, Timestamp)>,
    nodes: Seq<(Timestamp, NodeV)>,
    obj: Timestamp,
) -> (Seq<(u64, Timestamp)>, Seq<Timestamp>)
    decreases data.len(),
{
    if data.len() == 0 {
        (es, Seq::empty())
    } else {
        vec_put_one(vec_put_all(es, data.drop_last(), nodes, obj), data.last(), nodes, obj)
    }
}

/// Writing indexes into the vector `obj`.
pub open spec fn ins_vec(g: GraphView, obj: Timestamp, data: Seq<(u64, Timestamp)>) -> GraphView {
    if has_node(g.nodes, obj) {
        match node_at(g.nodes, obj) {
            NodeV::Vec(es) => {
                let (es2, olds) = vec_put_all(es, data, g.nodes, obj);
                GraphView { nodes: gc_all(set_node(g.nodes, obj, NodeV::Vec(es2)), olds), root: g.root }
            },
            _ => g,
        }
    } else {
        g
    }
}

/// The slot of the `i`-th item of an insertion with identifier `id`.
pub open spec fn slot_at(id: Timestamp, i: int) -> Timestamp {
    Timestamp { sid: id.sid, time: (id.time + i) as u64 }
}

/// The new slots of an insertion of `data` with identifier `id` into `atoms`:
/// one per item, except for slots already present.
pub open spec fn new_atoms<T>(atoms: Seq<(Timestamp, Option<T>)>, id: Timestamp, data: Seq<T>) -> Seq<(Timestamp, Option<T>)>
    decreases data.len(),
{
    if data.len() == 0 {
        Seq::empty()
    } else {
        let slot = slot_at(id, data.len() - 1);
        let rest = new_atoms(atoms, id, data.drop_last());
        if pos_of(atoms, slot) < atoms.len() {
            rest
        } else {
            rest.push((slot, Some(data.last())))
        }
    }
}

/// The new slots of an array insertion: one per value that exists and comes
/// after the array, except for slots already present.
pub open spec fn new_arr_atoms(
    atoms: Seq<(Timestamp, Option<Timestamp>)>,
    nodes: Seq<(Timestamp, NodeV)>,
    obj: Timestamp,
    id: Timestamp,
    data: Seq<Timestamp>,
) -> Seq<(Timestamp, Option<Timestamp>)>
    decreases data.len(),
{
    if data.len() == 0 {
        Seq::empty()
    } else {
        let slot = slot_at(id, data.len() - 1);
        let vid = data.last();
        let rest = new_arr_atoms(atoms, nodes, obj, id, data.drop_last());
        if has_node(nodes, vid) && obj.time < vid.time && pos_of(atoms, slot) >= atoms.len() {
            rest.push((slot, Some(vid)))
        } else {
            rest
        }
    }
}

/// `atoms` with `ins` spliced in at position `idx`.
pub open spec fn splice_at<A>(atoms: Seq<A>, idx: int, ins: Seq<A>) -> Seq<A> {
    atoms.take(idx) + ins + atoms.skip(idx)
}

/// Inserting text into the string `obj` after `reference`.
pub open spec fn ins_str(g: GraphView, id: Timestamp, obj: Timestamp, reference: Timestamp, data: Seq<char>) -> GraphView {
    if has_node(g.nodes, obj) {
        match node_at(g.nodes, obj) {
            NodeV::Str(atoms) => match crate::model_runtime::rga::rga_insert_index(crate::model_runtime::rga::slots_of(atoms), reference, obj, id) {
                Some(idx) => GraphView {
                    nodes: set_node(g.nodes, obj, NodeV::Str(splice_at(atoms, idx, new_atoms(atoms, id, data)))),
                    root: g.root,
                },
                None => g,
            },
            _ => g,
        }
    } else {
        g
    }
}

/// Inserting bytes into the binary `obj` after `reference`.
pub open spec fn ins_bin(g: GraphView, id: Timestamp, obj: Timestamp, reference: Timestamp, data: Seq<u8>) -> GraphView {
    if has_node(g.nodes, obj) {
        match node_at(g.nodes, obj) {
            NodeV::Bin(atoms) => match crate::model_runtime::rga::rga_insert_index(crate::model_runtime::rga::slots_of(atoms), reference, obj, id) {
                Some(idx) => GraphView {
                    nodes: set_node(g.nodes, obj, NodeV::Bin(splice_at(atoms, idx, new_atoms(atoms, id, data)))),
                    root: g.root,
                },
                None => g,
            },
            _ => g,
        }
    } else {
        g
    }
}

/// Inserting values into the array `obj` after `reference`.
pub open spec fn ins_arr(g: GraphView, id: Timestamp, obj: Timestamp, reference: Timestamp, data: Seq<Timestamp>) -> GraphView {
    if has_node(g.nodes, obj) {
        match node_at(g.nodes, obj) {
            NodeV::Arr(atoms) => match crate::model_runtime::rga::rga_insert_index(crate::model_runtime::rga::slots_of(atoms), reference, obj, id) {
                Some(idx) => GraphView {
                    nodes: set_node(g.nodes, obj, NodeV::Arr(splice_at(atoms, idx, new_arr_atoms(atoms, g.nodes, obj, id, data)))),
                    root: g.root,
                },
                None => g,
            },
            _ => g,
        }
    } else {
        g
    }
}

/// Writing `val` into the array slot `reference` of `obj`: it wins over an
/// empty slot, or over a value that comes before it (which is removed).
pub open spec fn upd_arr(g: GraphView, obj: Timestamp, reference: Timestamp, val: Timestamp) -> GraphView {
    if !has_node(g.nodes, val) {
        g
    } else if has_node(g.nodes, obj) {
        match node_at(g.nodes, obj) {
            NodeV::Arr(atoms) => {
                let p = pos_of(atoms, reference);
                if p >= atoms.len() {
                    g
                } else {
                    let atoms2 = atoms.update(p, (atoms[p].0, Some(val)));
                    match atoms[p].1 {
                        Some(old) => if id_lt(old, val) {
                            GraphView { nodes: gc_node(set_node(g.nodes, obj, NodeV::Arr(atoms2)), old), root: g.root }
                        } else {
                            g
                        },
                        None => GraphView { nodes: set_node(g.nodes, obj, NodeV::Arr(atoms2)), root: g.root },
                    }
                }
            },
            _ => g,
        }
    } else {
        g
    }
}

/// Clearing the first slot `slot`, collecting what it held.
pub open spec fn del_one<T>(st: (Seq<(Timestamp, Option<T>)>, Seq<T>), slot: Timestamp) -> (Seq<(Timestamp, Option<T>)>, Seq<T>) {
    let (atoms, olds) = st;
    let p = pos_of(atoms, slot);
    if p < atoms.len() {
        (atoms.update(p, (atoms[p].0, None)), match atoms[p].1 {
            Some(o) => olds.push(o),
            None => olds,
        })
    } else {
        (atoms, olds)
    }
}

/// Clearing the first `n` slots of the run `sp`, in time order.
pub open spec fn del_run<T>(st: (Seq<(Timestamp, Option<T>)>, Seq<T>), sp: Timespan, n: nat) -> (Seq<(Timestamp, Option<T>)>, Seq<T>)
    decreases n,
{
    if n == 0 {
        st
    } else {
        del_one(del_run(st, sp, (n - 1) as nat), Timestamp { sid: sp.sid, time: (sp.time + n - 1) as u64 })
    }
}

/// Clearing the slots of the runs, in order.
pub open spec fn del_spans<T>(atoms: Seq<(Timestamp, Option<T>)>, what: Seq<Timespan>) -> (Seq<(Timestamp, Option<T>)>, Seq<T>)
    decreases what.len(),
{
    if what.len() == 0 {
        (atoms, Seq::empty())
    } else {
        del_run(del_spans(atoms, what.drop_last()), what.last(), what.last().span as nat)
    }
}

/// Deleting the runs `what` from the string, binary or array `obj`; the
/// values cleared from an array are removed with their subtrees.
pub open spec fn del(g: GraphView, obj: Timestamp, what: Seq<Timespan>) -> GraphView {
    if has_node(g.nodes, obj) {
        match node_at(g.nodes, obj) {
            NodeV::Str(atoms) => GraphView { nodes: set_node(g.nodes, obj, NodeV::Str(del_spans(atoms, what).0)), root: g.root },
            NodeV::Bin(atoms) => GraphView { nodes: set_node(g.nodes, obj, NodeV::Bin(del_spans(atoms, what).0)), root: g.root },
            NodeV::Arr(atoms) => {
                let (atoms2, olds) = del_spans(atoms, what);
                GraphView { nodes: gc_all(set_node(g.nodes, obj, NodeV::Arr(atoms2)), olds), root: g.root }
            },
            _ => g,
        }
    } else {
        g
    }
}

/// The effect of one operation on the graph; `infer` tells whether an empty
/// object document takes its root from the first object written.
pub open spec fn apply_op_spec(g: GraphView, infer: bool, op: DecodedOp) -> GraphView {
    match op {
        DecodedOp::NewCon { id, value } => new_node(g, id, NodeV::Con(match value {
            ConValue::Json(v) => ConCellV::Json(v.jv()),
            ConValue::Ref(t) => ConCellV::Ref(t),
            ConValue::Undef => ConCellV::Undef,
        })),
        DecodedOp::NewVal { id } => new_node(g, id, NodeV::Val(Timestamp { sid: 0, time: 0 })),
        DecodedOp::NewObj { id } => new_node(g, id, NodeV::Obj(Seq::empty())),
        DecodedOp::NewVec { id } => new_node(g, id, NodeV::Vec(Seq::empty())),
        DecodedOp::NewStr { id } => new_node(g, id, NodeV::Str(Seq::empty())),
        DecodedOp::NewBin { id } => new_node(g, id, NodeV::Bin(Seq::empty())),
        DecodedOp::NewArr { id } => new_node(g, id, NodeV::Arr(Seq::empty())),
        DecodedOp::InsVal { obj, val, .. } => ins_val(g, obj, val),
        DecodedOp::InsObj { obj, data, .. } => ins_obj(g, infer, obj, obj_entries_view(data@)),
        DecodedOp::InsVec { obj, data, .. } => ins_vec(g, obj, data@),
        DecodedOp::InsStr { id, obj, reference, data } => ins_str(g, id, obj, reference, data@),
        DecodedOp::InsBin { id, obj, reference, data } => ins_bin(g, id, obj, reference, data@),
        DecodedOp::InsArr { id, obj, reference, data } => ins_arr(g, id, obj, reference, data@),
        DecodedOp::UpdArr { obj, reference, val, .. } => upd_arr(g, obj, reference, val),
        DecodedOp::Del { obj, what, .. } => del(g, obj, what@),
        DecodedOp::Nop { .. } => g,
    }
}

/// Whether the operation's clock arithmetic stays within `u64`: the times of
/// its slots and, for a deletion, the ends of its runs.
pub open spec fn op_fits(op: DecodedOp) -> bool {
    match op {
        DecodedOp::InsStr { id, data, .. } => data@.len() <= u64::MAX && id.time + data@.len() <= u64::MAX + 1,
        DecodedOp::InsBin { id, data, .. } => data@.len() <= u64::MAX && id.time + data@.len() <= u64::MAX + 1,
        DecodedOp::InsArr { id, data, .. } => data@.len() <= u64::MAX && id.time + data@.len() <= u64::MAX + 1,
        DecodedOp::Nop { id, len } => id.time + len <= u64::MAX + 1,
        DecodedOp::Del { what, .. } => forall|k: int| 0 <= k < what@.len() ==> #[trigger] what@[k].time + what@[k].span <= u64::MAX,
        _ => true,
    }
}

/// Replacing the entry at the position of `k` by `(k, n)` sets the node `k`.
proof fn lemma_store_replace(s: Seq<(Timestamp, RuntimeNode)>, p: int, k: Timestamp, n: RuntimeNode)
    requires
        0 <= p < s.len(),
        pos_of(store_view(s), k) == p,
    ensures
        store_view(s.update(p, (k, n))) == set_node(store_view(s), k, n.nv()),
{
    assert(store_view(s.update(p, (k, n))) =~= store_view(s).update(p, (k, n.nv())));
}

/// Taking out the entry at `p` and putting it back leaves the store as it was.
proof fn lemma_store_reinsert(s: Seq<(Timestamp, RuntimeNode)>, p: int)
    requires
        0 <= p < s.len(),
    ensures
        s.remove(p).insert(p, s[p]) == s,
{
    assert(s.remove(p).insert(p, s[p]) =~= s);
}


/// `index_pos` is the first position with the index, or the length.
proof fn lemma_index_pos(es: Seq<(u64, Timestamp)>, idx: u64, i: int)
    requires
        0 <= i <= es.len(),
        i < es.len() ==> es[i].0 == idx,
        forall|j: int| 0 <= j < i ==> es[j].0 != idx,
    ensures
        index_pos(es, idx) == i,
    decreases es.len(),
{
    if es.len() > 0 && i > 0 {
        assert forall|j: int| 0 <= j < i - 1 implies es.drop_first()[j].0 != idx by {
            assert(es.drop_first()[j] == es[j + 1]);
        }
        lemma_index_pos(es.drop_first(), idx, i - 1);
    }
}

/// `index_insert_pos` is the first position with a greater index, or the
/// length.
proof fn lemma_index_insert_pos(es: Seq<(u64, Timestamp)>, idx: u64, i: int)
    requires
        0 <= i <= es.len(),
        i < es.len() ==> es[i].0 > idx,
        forall|j: int| 0 <= j < i ==> es[j].0 <= idx,
    ensures
        index_insert_pos(es, idx) == i,
    decreases es.len(),
{
    if es.len() > 0 && i > 0 {
        assert forall|j: int| 0 <= j < i - 1 implies es.drop_first()[j].0 <= idx by {
            assert(es.drop_first()[j] == es[j + 1]);
        }
        lemma_index_insert_pos(es.drop_first(), idx, i - 1);
    }
}

/// Clears the slots of the runs in string atoms.
fn del_str_atoms(atoms: &mut Vec<StrAtom>, what: &Vec<Timespan>)
    requires
        forall|k: int| 0 <= k < what@.len() ==> #[trigger] what@[k].time + what@[k].span <= u64::MAX,
    ensures
        str_atoms_view(final(atoms)@) == del_spans(str_atoms_view(old(atoms)@), what@).0,
{
    let ghost a0 = str_atoms_view(atoms@);
    let ghost mut olds: Seq<char> = Seq::empty();
    let mut k: usize = 0;
    assert(what@.take(0) =~= Seq::<Timespan>::empty());
    while k < what.len()
        invariant
            k <= what@.len(),
            forall|q: int| 0 <= q < what@.len() ==> #[trigger] what@[q].time + what@[q].span <= u64::MAX,
            (str_atoms_view(atoms@), olds) == del_spans(a0, what@.take(k as int)),
        decreases what.len() - k,
    {
        let sp = what[k];
        let end = sp.time + sp.span;
        let mut t = sp.time;
        let ghost base = del_spans(a0, what@.take(k as int));
        while t < end
            invariant
                sp.time <= t <= end,
                end == sp.time + sp.span,
                (str_atoms_view(atoms@), olds) == del_run(base, sp, (t - sp.time) as nat),
            decreases end - t,
        {
            let slot = Timestamp { sid: sp.sid, time: t };
            let mut j: usize = 0;
            while j < atoms.len() && atoms[j].slot != slot
                invariant
                    j <= atoms@.len(),
                    forall|q: int| 0 <= q < j ==> atoms@[q].slot != slot,
                decreases atoms.len() - j,
            {
                j = j + 1;
            }
            let ghost av = str_atoms_view(atoms@);
            proof {
                assert forall|q: int| 0 <= q < j implies av[q].0 != slot by {
                    assert(av[q].0 == atoms@[q].slot);
                }
                if j < atoms@.len() {
                    assert(av[j as int].0 == atoms@[j as int].slot);
                }
                lemma_pos_of_at(av, slot, j as int);
                assert(slot == Timestamp { sid: sp.sid, time: (sp.time + (t + 1 - sp.time) - 1) as u64 });
            }
            if j < atoms.len() {
                proof {
                    olds = match atoms@[j as int].ch {
                        Some(o) => olds.push(o),
                        None => olds,
                    };
                }
                let s = atoms[j].slot;
                atoms.set(j, StrAtom { slot: s, ch: None });
                proof {
                    assert(str_atoms_view(atoms@) =~= av.update(j as int, (av[j as int].0, None)));
                }
            }
            t = t + 1;
        }
        proof {
            assert(what@.take(k + 1).drop_last() =~= what@.take(k as int));
            assert(what@.take(k + 1).last() == sp);
        }
        k = k + 1;
    }
    assert(what@.take(what@.len() as int) =~= what@);
}

/// Clears the slots of the runs in binary atoms.
fn del_bin_atoms(atoms: &mut Vec<BinAtom>, what: &Vec<Timespan>)
    requires
        forall|k: int| 0 <= k < what@.len() ==> #[trigger] what@[k].time + what@[k].span <= u64::MAX,
    ensures
        bin_atoms_view(final(atoms)@) == del_spans(bin_atoms_view(old(atoms)@), what@).0,
{
    let ghost a0 = bin_atoms_view(atoms@);
    let ghost mut olds: Seq<u8> = Seq::empty();
    let mut k: usize = 0;
    assert(what@.take(0) =~= Seq::<Timespan>::empty());
    while k < what.len()
        invariant
            k <= what@.len(),
            forall|q: int| 0 <= q < what@.len() ==> #[trigger] what@[q].time + what@[q].span <= u64::MAX,
            (bin_atoms_view(atoms@), olds) == del_spans(a0, what@.take(k as int)),
        decreases what.len() - k,
    {
        let sp = what[k];
        let end = sp.time + sp.span;
        let mut t = sp.time;
        let ghost base = del_spans(a0, what@.take(k as int));
        while t < end
            invariant
                sp.time <= t <= end,
                end == sp.time + sp.span,
                (bin_atoms_view(atoms@), olds) == del_run(base, sp, (t - sp.time) as nat),
            decreases end - t,
        {
            let slot = Timestamp { sid: sp.sid, time: t };
            let mut j: usize = 0;
            while j < atoms.len() && atoms[j].slot != slot
                invariant
                    j <= atoms@.len(),
                    forall|q: int| 0 <= q < j ==> atoms@[q].slot != slot,
                decreases atoms.len() - j,
            {
                j = j + 1;
            }
            let ghost av = bin_atoms_view(atoms@);
            proof {
                assert forall|q: int| 0 <= q < j implies av[q].0 != slot by {
                    assert(av[q].0 == atoms@[q].slot);
                }
                if j < atoms@.len() {
                    assert(av[j as int].0 == atoms@[j as int].slot);
                }
                lemma_pos_of_at(av, slot, j as int);
                assert(slot == Timestamp { sid: sp.sid, time: (sp.time + (t + 1 - sp.time) - 1) as u64 });
            }
            if j < atoms.len() {
                proof {
                    olds = match atoms@[j as int].byte {
                        Some(o) => olds.push(o),
                        None => olds,
                    };
                }
                let s = atoms[j].slot;
                atoms.set(j, BinAtom { slot: s, byte: None });
                proof {
                    assert(bin_atoms_view(atoms@) =~= av.update(j as int, (av[j as int].0, None)));
                }
            }
            t = t + 1;
        }
        proof {
            assert(what@.take(k + 1).drop_last() =~= what@.take(k as int));
            assert(what@.take(k + 1).last() == sp);
        }
        k = k + 1;
    }
    assert(what@.take(what@.len() as int) =~= what@);
}

/// Clears the slots of the runs in array atoms, returning the values
/// cleared, in order.
fn del_arr_atoms(atoms: &mut Vec<ArrAtom>, what: &Vec<Timespan>) -> (olds: Vec<Timestamp>)
    requires
        forall|k: int| 0 <= k < what@.len() ==> #[trigger] what@[k].time + what@[k].span <= u64::MAX,
    ensures
        (arr_atoms_view(final(atoms)@), olds@) == del_spans(arr_atoms_view(old(atoms)@), what@),
{
    let ghost a0 = arr_atoms_view(atoms@);
    let mut olds: Vec<Timestamp> = Vec::new();
    let mut k: usize = 0;
    assert(what@.take(0) =~= Seq::<Timespan>::empty());
    while k < what.len()
        invariant
            k <= what@.len(),
            forall|q: int| 0 <= q < what@.len() ==> #[trigger] what@[q].time + what@[q].span <= u64::MAX,
            (arr_atoms_view(atoms@), olds@) == del_spans(a0, what@.take(k as int)),
        decreases what.len() - k,
    {
        let sp = what[k];
        let end = sp.time + sp.span;
        let mut t = sp.time;
        let ghost base = del_spans(a0, what@.take(k as int));
        while t < end
            invariant
                sp.time <= t <= end,
                end == sp.time + sp.span,
                (arr_atoms_view(atoms@), olds@) == del_run(base, sp, (t - sp.time) as nat),
            decreases end - t,
        {
            let slot = Timestamp { sid: sp.sid, time: t };
            let mut j: usize = 0;
            while j < atoms.len() && atoms[j].slot != slot
                invariant
                    j <= atoms@.len(),
                    forall|q: int| 0 <= q < j ==> atoms@[q].slot != slot,
                decreases atoms.len() - j,
            {
                j = j + 1;
            }
            let ghost av = arr_atoms_view(atoms@);
            proof {
                assert forall|q: int| 0 <= q < j implies av[q].0 != slot by {
                    assert(av[q].0 == atoms@[q].slot);
                }
                if j < atoms@.len() {
                    assert(av[j as int].0 == atoms@[j as int].slot);
                }
                lemma_pos_of_at(av, slot, j as int);
                assert(slot == Timestamp { sid: sp.sid, time: (sp.time + (t + 1 - sp.time) - 1) as u64 });
            }
            if j < atoms.len() {
                if let Some(o) = atoms[j].value {
                    olds.push(o);
                }
                let s = atoms[j].slot;
                atoms.set(j, ArrAtom { slot: s, value: None });
                proof {
                    assert(arr_atoms_view(atoms@) =~= av.update(j as int, (av[j as int].0, None)));
                }
            }
            t = t + 1;
        }
        proof {
            assert(what@.take(k + 1).drop_last() =~= what@.take(k as int));
            assert(what@.take(k + 1).last() == sp);
        }
        k = k + 1;
    }
    assert(what@.take(what@.len() as int) =~= what@);
    olds
}

impl RuntimeModel {
    /// Whether the store holds the node `id`.
    fn has_id(&self, id: Timestamp) -> (res: bool)
        ensures
            res == has_node(store_view(self.nodes@), id),
    {
        let p = self.find_node(id);
        p < self.nodes.len()
    }

    /// Adds the node unless its identifier is held.
    fn apply_new(&mut self, id: Timestamp, node: RuntimeNode)
        ensures
            final(self).graph() == new_node(old(self).graph(), id, node.nv()),
            final(self).same_state_but_graph(old(self)),
            final(self).infer_empty_object_root == old(self).infer_empty_object_root,
    {
        if !self.has_id(id) {
            self.nodes.push((id, node));
            proof {
                assert(store_view(self.nodes@) =~= store_view(old(self).nodes@).push((id, node.nv())));
            }
        }
    }

    /// Writes `val` into the register `obj`.
    fn apply_ins_val(&mut self, obj: Timestamp, val: Timestamp)
        ensures
            final(self).graph() == ins_val(old(self).graph(), obj, val),
            final(self).same_state_but_graph(old(self)),
            final(self).infer_empty_object_root == old(self).infer_empty_object_root,
    {
        if !self.has_id(val) {
            return;
        }
        if obj.sid == 0 && obj.time == 0 {
            match self.root {
                None => {
                    self.root = Some(val);
                },
                Some(cur) => {
                    if id_before(cur, val) {
                        self.root = Some(val);
                        self.gc_tree(cur);
                    }
                },
            }
        } else {
            let p = self.find_node(obj);
            if p >= self.nodes.len() {
                return;
            }
            let old_child = match &self.nodes[p].1 {
                RuntimeNode::Val(c) => *c,
                _ => {
                    return;
                },
            };
            if (old_child.sid != 0 && !id_before(old_child, val)) || !id_before(obj, val) {
                return;
            }
            let ghost s0 = self.nodes@;
            proof {
                lemma_pos_of(store_view(s0), obj);
                assert(store_view(s0)[p as int].0 == s0[p as int].0);
            }
            self.nodes.set(p, (obj, RuntimeNode::Val(val)));
            proof {
                lemma_store_replace(s0, p as int, obj, RuntimeNode::Val(val));
            }
            if old_child != val {
                self.gc_tree(old_child);
            }
        }
    }

    /// An empty document whose view was an empty object takes the object
    /// `obj` with time 1 as its root.
    fn maybe_infer_root_obj(&mut self, obj: Timestamp)
        ensures
            final(self).graph() == infer_root(old(self).graph(), old(self).infer_empty_object_root, obj),
            final(self).same_state_but_graph(old(self)),
            final(self).infer_empty_object_root == old(self).infer_empty_object_root,
    {
        if self.root.is_none() && self.infer_empty_object_root && obj.time == 1 {
            self.apply_new(obj, RuntimeNode::Obj(Vec::new()));
            self.root = Some(obj);
            proof {
                assert(obj_entries_view(Seq::<(String, Timestamp)>::empty()) =~= Seq::empty());
            }
        }
    }

    /// Whether each value of the key writes is held by the store.
    fn held_flags<K>(&self, data: &Vec<(K, Timestamp)>) -> (res: Vec<bool>)
        ensures
            res@.len() == data@.len(),
            forall|j: int| 0 <= j < data@.len() ==> #[trigger] res@[j] == has_node(store_view(self.nodes@), data@[j].1),
    {
        let mut flags: Vec<bool> = Vec::new();
        let mut i: usize = 0;
        while i < data.len()
            invariant
                i <= data@.len(),
                flags@.len() == i,
                forall|j: int| 0 <= j < i ==> #[trigger] flags@[j] == has_node(store_view(self.nodes@), data@[j].1),
            decreases data.len() - i,
        {
            let h = self.has_id(data[i].1);
            flags.push(h);
            i = i + 1;
        }
        flags
    }

    /// Removes, one after the other, the subtrees under the identifiers.
    fn gc_each(&mut self, ids: &Vec<Timestamp>)
        ensures
            store_view(final(self).nodes@) == gc_all(store_view(old(self).nodes@), ids@),
            final(self).root == old(self).root,
            final(self).same_state_but_graph(old(self)),
            final(self).infer_empty_object_root == old(self).infer_empty_object_root,
    {
        let mut t: usize = 0;
        assert(ids@.take(0) =~= Seq::<Timestamp>::empty());
        while t < ids.len()
            invariant
                t <= ids@.len(),
                store_view(self.nodes@) == gc_all(store_view(old(self).nodes@), ids@.take(t as int)),
                self.root == old(self).root,
                self.same_state_but_graph(old(self)),
                self.infer_empty_object_root == old(self).infer_empty_object_root,
            decreases ids.len() - t,
        {
            proof {
                assert(ids@.take(t + 1).drop_last() =~= ids@.take(t as int));
                assert(ids@.take(t + 1).last() == ids@[t as int]);
            }
            self.gc_tree(ids[t]);
            t = t + 1;
        }
        assert(ids@.take(ids@.len() as int) =~= ids@);
    }

    /// Writes keys into the object `obj`.
    fn apply_ins_obj(&mut self, obj: Timestamp, data: &Vec<(String, Timestamp)>)
        ensures
            final(self).graph() == ins_obj(old(self).graph(), old(self).infer_empty_object_root, obj, obj_entries_view(data@)),
            final(self).same_state_but_graph(old(self)),
            final(self).infer_empty_object_root == old(self).infer_empty_object_root,
    {
        self.maybe_infer_root_obj(obj);
        let ghost g1 = self.graph();
        let ghost dv = obj_entries_view(data@);
        let flags = self.held_flags(data);
        let p = self.find_node(obj);
        if p >= self.nodes.len() {
            return;
        }
        let ghost s0 = self.nodes@;
        proof {
            lemma_pos_of(store_view(s0), obj);
            assert(store_view(s0)[p as int].0 == s0[p as int].0);
        }
        let (k, node) = self.nodes.remove(p);
        match node {
            RuntimeNode::Obj(mut entries) => {
                let ghost es0 = obj_entries_view(entries@);
                let mut olds: Vec<Timestamp> = Vec::new();
                let mut i: usize = 0;
                assert(dv.take(0) =~= Seq::<(Seq<char>, Timestamp)>::empty());
                while i < data.len()
                    invariant
                        i <= data@.len(),
                        flags@.len() == data@.len(),
                        forall|j: int| 0 <= j < data@.len() ==> #[trigger] flags@[j] == has_node(g1.nodes, data@[j].1),
                        dv == obj_entries_view(data@),
                        (obj_entries_view(entries@), olds@) == obj_put_all(es0, dv.take(i as int), g1.nodes, obj),
                    decreases data.len() - i,
                {
                    let vid = data[i].1;
                    let ghost st = (obj_entries_view(entries@), olds@);
                    proof {
                        assert(dv.take(i + 1).drop_last() =~= dv.take(i as int));
                        assert(dv.take(i + 1).last() == (data@[i as int].0@, vid));
                    }
                    if flags[i] && obj.time < vid.time {
                        let mut j: usize = 0;
                        while j < entries.len() && !(entries[j].0 == data[i].0)
                            invariant
                                j <= entries@.len(),
                                i < data@.len(),
                                forall|q: int| 0 <= q < j ==> entries@[q].0@ != data@[i as int].0@,
                            decreases entries.len() - j,
                        {
                            j = j + 1;
                        }
                        proof {
                            let ev = obj_entries_view(entries@);
                            assert forall|q: int| 0 <= q < j implies ev[q].0 != data@[i as int].0@ by {
                                assert(ev[q].0 == entries@[q].0@);
                            }
                            if j < entries@.len() {
                                assert(ev[j as int].0 == entries@[j as int].0@);
                            }
                            lemma_key_pos(ev, data@[i as int].0@, j as int);
                        }
                        if j < entries.len() {
                            let old = entries[j].1;
                            if id_before(old, vid) {
                                let key = entries[j].0.clone();
                                let ghost ev0 = obj_entries_view(entries@);
                                entries.set(j, (key, vid));
                                olds.push(old);
                                proof {
                                    assert(obj_entries_view(entries@) =~= ev0.update(j as int, (ev0[j as int].0, vid)));
                                }
                            }
                        } else {
                            let key = data[i].0.clone();
                            let ghost ev0 = obj_entries_view(entries@);
                            entries.push((key, vid));
                            proof {
                                assert(obj_entries_view(entries@) =~= ev0.push((data@[i as int].0@, vid)));
                            }
                        }
                    }
                    i = i + 1;
                }
                proof {
                    assert(dv.take(data@.len() as int) =~= dv);
                }
                let ghost es2 = obj_entries_view(entries@);
                self.nodes.insert(p, (k, RuntimeNode::Obj(entries)));
                proof {
                    assert(self.nodes@ =~= s0.update(p as int, (obj, RuntimeNode::Obj(entries))));
                    lemma_store_replace(s0, p as int, obj, RuntimeNode::Obj(entries));
                }
                self.gc_each(&olds);
            },
            other => {
                self.nodes.insert(p, (k, other));
                proof {
                    lemma_store_reinsert(s0, p as int);
                }
            },
        }
    }

    /// Writes indexes into the vector `obj`.
    fn apply_ins_vec(&mut self, obj: Timestamp, data: &Vec<(u64, Timestamp)>)
        ensures
            final(self).graph() == ins_vec(old(self).graph(), obj, data@),
            final(self).same_state_but_graph(old(self)),
            final(self).infer_empty_object_root == old(self).infer_empty_object_root,
    {
        let ghost g0 = self.graph();
        let flags = self.held_flags(data);
        let p = self.find_node(obj);
        if p >= self.nodes.len() {
            return;
        }
        let ghost s0 = self.nodes@;
        proof {
            lemma_pos_of(store_view(s0), obj);
            assert(store_view(s0)[p as int].0 == s0[p as int].0);
        }
        let (k, node) = self.nodes.remove(p);
        match node {
            RuntimeNode::Vec(mut entries) => {
                let ghost es0 = entries@;
                let mut olds: Vec<Timestamp> = Vec::new();
                let mut i: usize = 0;
                assert(data@.take(0) =~= Seq::<(u64, Timestamp)>::empty());
                while i < data.len()
                    invariant
                        i <= data@.len(),
                        flags@.len() == data@.len(),
                        forall|j: int| 0 <= j < data@.len() ==> #[trigger] flags@[j] == has_node(g0.nodes, data@[j].1),
                        (entries@, olds@) == vec_put_all(es0, data@.take(i as int), g0.nodes, obj),
                    decreases data.len() - i,
                {
                    let (idx, vid) = data[i];
                    proof {
                        assert(data@.take(i + 1).drop_last() =~= data@.take(i as int));
                        assert(data@.take(i + 1).last() == (idx, vid));
                    }
                    if flags[i] && obj.time < vid.time {
                        let mut j: usize = 0;
                        while j < entries.len() && entries[j].0 != idx
                            invariant
                                j <= entries@.len(),
                                forall|q: int| 0 <= q < j ==> entries@[q].0 != idx,
                            decreases entries.len() - j,
                        {
                            j = j + 1;
                        }
                        proof {
                            lemma_index_pos(entries@, idx, j as int);
                        }
                        if j < entries.len() {
                            let old = entries[j].1;
                            if id_before(old, vid) {
                                entries.set(j, (idx, vid));
                                olds.push(old);
                            }
                        } else {
                            let mut q: usize = 0;
                            while q < entries.len() && entries[q].0 <= idx
                                invariant
                                    q <= entries@.len(),
                                    forall|r: int| 0 <= r < q ==> entries@[r].0 <= idx,
                                decreases entries.len() - q,
                            {
                                q = q + 1;
                            }
                            proof {
                                lemma_index_insert_pos(entries@, idx, q as int);
                            }
                            entries.insert(q, (idx, vid));
                        }
                    }
                    i = i + 1;
                }
                proof {
                    assert(data@.take(data@.len() as int) =~= data@);
                }
                self.nodes.insert(p, (k, RuntimeNode::Vec(entries)));
                proof {
                    assert(self.nodes@ =~= s0.update(p as int, (obj, RuntimeNode::Vec(entries))));
                    lemma_store_replace(s0, p as int, obj, RuntimeNode::Vec(entries));
                }
                self.gc_each(&olds);
            },
            other => {
                self.nodes.insert(p, (k, other));
                proof {
                    lemma_store_reinsert(s0, p as int);
                }
            },
        }
    }

    /// Inserts text into the string `obj` after `reference`.
    fn apply_ins_str(&mut self, id: Timestamp, obj: Timestamp, reference: Timestamp, data: &String)
        requires
            id.time + data@.len() <= u64::MAX + 1,
        ensures
            final(self).graph() == ins_str(old(self).graph(), id, obj, reference, data@),
            final(self).same_state_but_graph(old(self)),
            final(self).infer_empty_object_root == old(self).infer_empty_object_root,
    {
        let p = self.find_node(obj);
        if p >= self.nodes.len() {
            return;
        }
        let ghost s0 = self.nodes@;
        proof {
            lemma_pos_of(store_view(s0), obj);
            assert(store_view(s0)[p as int].0 == s0[p as int].0);
        }
        let (k, node) = self.nodes.remove(p);
        match node {
            RuntimeNode::Str(atoms) => {
                let ghost av = str_atoms_view(atoms@);
                let slots = str_slots(&atoms);
                match find_insert_index_rga(&slots, reference, obj, id) {
                    None => {
                        self.nodes.insert(p, (k, RuntimeNode::Str(atoms)));
                        proof {
                            lemma_store_reinsert(s0, p as int);
                        }
                    },
                    Some(idx) => {
                        proof {
                            lemma_seq_pos(slots@, reference);
                        }
                        let chars = str_chars(data.as_str());
                        let mut inserted: Vec<StrAtom> = Vec::new();
                        let mut i: usize = 0;
                        assert(chars@.take(0) =~= Seq::<char>::empty());
                        while i < chars.len()
                            invariant
                                i <= chars@.len(),
                                chars@ == data@,
                                id.time + data@.len() <= u64::MAX + 1,
                                slots@ == slots_of(av),
                                str_atoms_view(inserted@) == new_atoms(av, id, chars@.take(i as int)),
                            decreases chars.len() - i,
                        {
                            let slot = Timestamp { sid: id.sid, time: id.time + i as u64 };
                            let q = slot_index(&slots, slot);
                            let ghost iv = str_atoms_view(inserted@);
                            proof {
                                lemma_pos_of_slots(av, slot);
                                assert(chars@.take(i + 1).drop_last() =~= chars@.take(i as int));
                                assert(chars@.take(i + 1).last() == chars@[i as int]);
                                assert(slot == slot_at(id, i as int));
                            }
                            if q >= slots.len() {
                                inserted.push(StrAtom { slot, ch: Some(chars[i]) });
                                proof {
                                    assert(str_atoms_view(inserted@) =~= iv.push((slot, Some(chars@[i as int]))));
                                }
                            }
                            i = i + 1;
                        }
                        proof {
                            assert(chars@.take(chars@.len() as int) =~= chars@);
                        }
                        let out = splice_vec(&atoms, idx, &inserted);
                        proof {
                            assert(str_atoms_view(out@) =~= splice_at(av, idx as int, str_atoms_view(inserted@)));
                        }
                        self.nodes.insert(p, (k, RuntimeNode::Str(out)));
                        proof {
                            assert(self.nodes@ =~= s0.update(p as int, (obj, RuntimeNode::Str(out))));
                            lemma_store_replace(s0, p as int, obj, RuntimeNode::Str(out));
                        }
                    },
                }
            },
            other => {
                self.nodes.insert(p, (k, other));
                proof {
                    lemma_store_reinsert(s0, p as int);
                }
            },
        }
    }

    /// Inserts bytes into the binary `obj` after `reference`.
    fn apply_ins_bin(&mut self, id: Timestamp, obj: Timestamp, reference: Timestamp, data: &Vec<u8>)
        requires
            id.time + data@.len() <= u64::MAX + 1,
        ensures
            final(self).graph() == ins_bin(old(self).graph(), id, obj, reference, data@),
            final(self).same_state_but_graph(old(self)),
            final(self).infer_empty_object_root == old(self).infer_empty_object_root,
    {
        let p = self.find_node(obj);
        if p >= self.nodes.len() {
            return;
        }
        let ghost s0 = self.nodes@;
        proof {
            lemma_pos_of(store_view(s0), obj);
            assert(store_view(s0)[p as int].0 == s0[p as int].0);
        }
        let (k, node) = self.nodes.remove(p);
        match node {
            RuntimeNode::Bin(atoms) => {
                let ghost av = bin_atoms_view(atoms@);
                let slots = bin_slots(&atoms);
                match find_insert_index_rga(&slots, reference, obj, id) {
                    None => {
                        self.nodes.insert(p, (k, RuntimeNode::Bin(atoms)));
                        proof {
                            lemma_store_reinsert(s0, p as int);
                        }
                    },
                    Some(idx) => {
                        let mut inserted: Vec<BinAtom> = Vec::new();
                        let mut i: usize = 0;
                        assert(data@.take(0) =~= Seq::<u8>::empty());
                        while i < data.len()
                            invariant
                                i <= data@.len(),
                                id.time + data@.len() <= u64::MAX + 1,
                                slots@ == slots_of(av),
                                bin_atoms_view(inserted@) == new_atoms(av, id, data@.take(i as int)),
                            decreases data.len() - i,
                        {
                            let slot = Timestamp { sid: id.sid, time: id.time + i as u64 };
                            let q = slot_index(&slots, slot);
                            let ghost iv = bin_atoms_view(inserted@);
                            proof {
                                lemma_pos_of_slots(av, slot);
                                assert(data@.take(i + 1).drop_last() =~= data@.take(i as int));
                                assert(data@.take(i + 1).last() == data@[i as int]);
                                assert(slot == slot_at(id, i as int));
                            }
                            if q >= slots.len() {
                                inserted.push(BinAtom { slot, byte: Some(data[i]) });
                                proof {
                                    assert(bin_atoms_view(inserted@) =~= iv.push((slot, Some(data@[i as int]))));
                                }
                            }
                            i = i + 1;
                        }
                        proof {
                            assert(data@.take(data@.len() as int) =~= data@);
                        }
                        let out = splice_vec(&atoms, idx, &inserted);
                        proof {
                            assert(bin_atoms_view(out@) =~= splice_at(av, idx as int, bin_atoms_view(inserted@)));
                        }
                        self.nodes.insert(p, (k, RuntimeNode::Bin(out)));
                        proof {
                            assert(self.nodes@ =~= s0.update(p as int, (obj, RuntimeNode::Bin(out))));
                            lemma_store_replace(s0, p as int, obj, RuntimeNode::Bin(out));
                        }
                    },
                }
            },
            other => {
                self.nodes.insert(p, (k, other));
                proof {
                    lemma_store_reinsert(s0, p as int);
                }
            },
        }
    }

    /// Whether each of the identifiers is held by the store.
    fn held_ids(&self, data: &Vec<Timestamp>) -> (res: Vec<bool>)
        ensures
            res@.len() == data@.len(),
            forall|j: int| 0 <= j < data@.len() ==> #[trigger] res@[j] == has_node(store_view(self.nodes@), data@[j]),
    {
        let mut flags: Vec<bool> = Vec::new();
        let mut i: usize = 0;
        while i < data.len()
            invariant
                i <= data@.len(),
                flags@.len() == i,
                forall|j: int| 0 <= j < i ==> #[trigger] flags@[j] == has_node(store_view(self.nodes@), data@[j]),
            decreases data.len() - i,
        {
            let h = self.has_id(data[i]);
            flags.push(h);
            i = i + 1;
        }
        flags
    }

    /// Inserts values into the array `obj` after `reference`.
    fn apply_ins_arr(&mut self, id: Timestamp, obj: Timestamp, reference: Timestamp, data: &Vec<Timestamp>)
        requires
            id.time + data@.len() <= u64::MAX + 1,
        ensures
            final(self).graph() == ins_arr(old(self).graph(), id, obj, reference, data@),
            final(self).same_state_but_graph(old(self)),
            final(self).infer_empty_object_root == old(self).infer_empty_object_root,
    {
        let ghost g0 = self.graph();
        let flags = self.held_ids(data);
        let p = self.find_node(obj);
        if p >= self.nodes.len() {
            return;
        }
        let ghost s0 = self.nodes@;
        proof {
            lemma_pos_of(store_view(s0), obj);
            assert(store_view(s0)[p as int].0 == s0[p as int].0);
        }
        let (k, node) = self.nodes.remove(p);
        match node {
            RuntimeNode::Arr(atoms) => {
                let ghost av = arr_atoms_view(atoms@);
                let slots = arr_slots(&atoms);
                match find_insert_index_rga(&slots, reference, obj, id) {
                    None => {
                        self.nodes.insert(p, (k, RuntimeNode::Arr(atoms)));
                        proof {
                            lemma_store_reinsert(s0, p as int);
                        }
                    },
                    Some(idx) => {
                        let mut inserted: Vec<ArrAtom> = Vec::new();
                        let mut i: usize = 0;
                        assert(data@.take(0) =~= Seq::<Timestamp>::empty());
                        while i < data.len()
                            invariant
                                i <= data@.len(),
                                id.time + data@.len() <= u64::MAX + 1,
                                slots@ == slots_of(av),
                                flags@.len() == data@.len(),
                                forall|j: int| 0 <= j < data@.len() ==> #[trigger] flags@[j] == has_node(g0.nodes, data@[j]),
                                arr_atoms_view(inserted@) == new_arr_atoms(av, g0.nodes, obj, id, data@.take(i as int)),
                            decreases data.len() - i,
                        {
                            let vid = data[i];
                            let slot = Timestamp { sid: id.sid, time: id.time + i as u64 };
                            let ghost iv = arr_atoms_view(inserted@);
                            proof {
                                lemma_pos_of_slots(av, slot);
                                assert(data@.take(i + 1).drop_last() =~= data@.take(i as int));
                                assert(data@.take(i + 1).last() == vid);
                                assert(slot == slot_at(id, i as int));
                            }
                            if flags[i] && obj.time < vid.time {
                                let q = slot_index(&slots, slot);
                                if q >= slots.len() {
                                    inserted.push(ArrAtom { slot, value: Some(vid) });
                                    proof {
                                        assert(arr_atoms_view(inserted@) =~= iv.push((slot, Some(vid))));
                                    }
                                }
                            }
                            i = i + 1;
                        }
                        proof {
                            assert(data@.take(data@.len() as int) =~= data@);
                        }
                        let out = splice_vec(&atoms, idx, &inserted);
                        proof {
                            assert(arr_atoms_view(out@) =~= splice_at(av, idx as int, arr_atoms_view(inserted@)));
                        }
                        self.nodes.insert(p, (k, RuntimeNode::Arr(out)));
                        proof {
                            assert(self.nodes@ =~= s0.update(p as int, (obj, RuntimeNode::Arr(out))));
                            lemma_store_replace(s0, p as int, obj, RuntimeNode::Arr(out));
                        }
                    },
                }
            },
            other => {
                self.nodes.insert(p, (k, other));
                proof {
                    lemma_store_reinsert(s0, p as int);
                }
            },
        }
    }

    /// Writes `val` into the slot `reference` of the array `obj`.
    fn apply_upd_arr(&mut self, obj: Timestamp, reference: Timestamp, val: Timestamp)
        ensures
            final(self).graph() == upd_arr(old(self).graph(), obj, reference, val),
            final(self).same_state_but_graph(old(self)),
            final(self).infer_empty_object_root == old(self).infer_empty_object_root,
    {
        if !self.has_id(val) {
            return;
        }
        let p = self.find_node(obj);
        if p >= self.nodes.len() {
            return;
        }
        let ghost s0 = self.nodes@;
        proof {
            lemma_pos_of(store_view(s0), obj);
            assert(store_view(s0)[p as int].0 == s0[p as int].0);
        }
        let (k, node) = self.nodes.remove(p);
        match node {
            RuntimeNode::Arr(mut atoms) => {
                let ghost av = arr_atoms_view(atoms@);
                let slots = arr_slots(&atoms);
                let q = slot_index(&slots, reference);
                proof {
                    lemma_pos_of_slots(av, reference);
                    lemma_pos_of(av, reference);
                }
                if q >= atoms.len() {
                    self.nodes.insert(p, (k, RuntimeNode::Arr(atoms)));
                    proof {
                        lemma_store_reinsert(s0, p as int);
                    }
                    return;
                }
                let slot = atoms[q].slot;
                match atoms[q].value {
                    Some(o) => {
                        if id_before(o, val) {
                            atoms.set(q, ArrAtom { slot, value: Some(val) });
                            proof {
                                assert(arr_atoms_view(atoms@) =~= av.update(q as int, (av[q as int].0, Some(val))));
                            }
                            self.nodes.insert(p, (k, RuntimeNode::Arr(atoms)));
                            proof {
                                assert(self.nodes@ =~= s0.update(p as int, (obj, RuntimeNode::Arr(atoms))));
                                lemma_store_replace(s0, p as int, obj, RuntimeNode::Arr(atoms));
                            }
                            self.gc_tree(o);
                        } else {
                            self.nodes.insert(p, (k, RuntimeNode::Arr(atoms)));
                            proof {
                                lemma_store_reinsert(s0, p as int);
                            }
                        }
                    },
                    None => {
                        atoms.set(q, ArrAtom { slot, value: Some(val) });
                        proof {
                            assert(arr_atoms_view(atoms@) =~= av.update(q as int, (av[q as int].0, Some(val))));
                        }
                        self.nodes.insert(p, (k, RuntimeNode::Arr(atoms)));
                        proof {
                            assert(self.nodes@ =~= s0.update(p as int, (obj, RuntimeNode::Arr(atoms))));
                            lemma_store_replace(s0, p as int, obj, RuntimeNode::Arr(atoms));
                        }
                    },
                }
            },
            other => {
                self.nodes.insert(p, (k, other));
                proof {
                    lemma_store_reinsert(s0, p as int);
                }
            },
        }
    }

    /// Deletes the runs `what` from the string, binary or array `obj`.
    fn apply_del(&mut self, obj: Timestamp, what: &Vec<Timespan>)
        requires
            forall|k: int| 0 <= k < what@.len() ==> #[trigger] what@[k].time + what@[k].span <= u64::MAX,
        ensures
            final(self).graph() == del(old(self).graph(), obj, what@),
            final(self).same_state_but_graph(old(self)),
            final(self).infer_empty_object_root == old(self).infer_empty_object_root,
    {
        let p = self.find_node(obj);
        if p >= self.nodes.len() {
            return;
        }
        let ghost s0 = self.nodes@;
        proof {
            lemma_pos_of(store_view(s0), obj);
            assert(store_view(s0)[p as int].0 == s0[p as int].0);
        }
        let (k, node) = self.nodes.remove(p);
        match node {
            RuntimeNode::Str(mut atoms) => {
                del_str_atoms(&mut atoms, what);
                self.nodes.insert(p, (k, RuntimeNode::Str(atoms)));
                proof {
                    assert(self.nodes@ =~= s0.update(p as int, (obj, RuntimeNode::Str(atoms))));
                    lemma_store_replace(s0, p as int, obj, RuntimeNode::Str(atoms));
                }
            },
            RuntimeNode::Bin(mut atoms) => {
                del_bin_atoms(&mut atoms, what);
                self.nodes.insert(p, (k, RuntimeNode::Bin(atoms)));
                proof {
                    assert(self.nodes@ =~= s0.update(p as int, (obj, RuntimeNode::Bin(atoms))));
                    lemma_store_replace(s0, p as int, obj, RuntimeNode::Bin(atoms));
                }
            },
            RuntimeNode::Arr(mut atoms) => {
                let olds = del_arr_atoms(&mut atoms, what);
                self.nodes.insert(p, (k, RuntimeNode::Arr(atoms)));
                proof {
                    assert(self.nodes@ =~= s0.update(p as int, (obj, RuntimeNode::Arr(atoms))));
                    lemma_store_replace(s0, p as int, obj, RuntimeNode::Arr(atoms));
                }
                self.gc_each(&olds);
            },
            other => {
                self.nodes.insert(p, (k, other));
                proof {
                    lemma_store_reinsert(s0, p as int);
                }
            },
        }
    }

    /// Applies one operation to the graph.
    pub(super) fn apply_op(&mut self, op: &DecodedOp) -> (res: Result<(), ApplyError>)
        requires
            op_fits(*op),
        ensures
            res is Ok,
            final(self).graph() == apply_op_spec(old(self).graph(), old(self).infer_empty_object_root, *op),
            final(self).same_state_but_graph(old(self)),
            final(self).infer_empty_object_root == old(self).infer_empty_object_root,
    {
        match op {
            DecodedOp::NewCon { id, value } => {
                let cell = match value {
                    ConValue::Json(v) => ConCell::Json(v.deep_clone()),
                    ConValue::Ref(t) => ConCell::Ref(*t),
                    ConValue::Undef => ConCell::Undef,
                };
                self.apply_new(*id, RuntimeNode::Con(cell));
            },
            DecodedOp::NewVal { id } => {
                self.apply_new(*id, RuntimeNode::Val(Timestamp { sid: 0, time: 0 }));
            },
            DecodedOp::NewObj { id } => {
                self.apply_new(*id, RuntimeNode::Obj(Vec::new()));
                proof {
                    assert(obj_entries_view(Seq::<(String, Timestamp)>::empty()) =~= Seq::empty());
                }
            },
            DecodedOp::NewVec { id } => {
                self.apply_new(*id, RuntimeNode::Vec(Vec::new()));
            },
            DecodedOp::NewStr { id } => {
                self.apply_new(*id, RuntimeNode::Str(Vec::new()));
                proof {
                    assert(str_atoms_view(Seq::<StrAtom>::empty()) =~= Seq::empty());
                }
            },
            DecodedOp::NewBin { id } => {
                self.apply_new(*id, RuntimeNode::Bin(Vec::new()));
                proof {
                    assert(bin_atoms_view(Seq::<BinAtom>::empty()) =~= Seq::empty());
                }
            },
            DecodedOp::NewArr { id } => {
                self.apply_new(*id, RuntimeNode::Arr(Vec::new()));
                proof {
                    assert(arr_atoms_view(Seq::<ArrAtom>::empty()) =~= Seq::empty());
                }
            },
            DecodedOp::InsVal { obj, val, .. } => {
                self.apply_ins_val(*obj, *val);
            },
            DecodedOp::InsObj { obj, data, .. } => {
                self.apply_ins_obj(*obj, data);
            },
            DecodedOp::InsVec { obj, data, .. } => {
                self.apply_ins_vec(*obj, data);
            },
            DecodedOp::InsStr { id, obj, reference, data } => {
                self.apply_ins_str(*id, *obj, *reference, data);
            },
            DecodedOp::InsBin { id, obj, reference, data } => {
                self.apply_ins_bin(*id, *obj, *reference, data);
            },
            DecodedOp::InsArr { id, obj, reference, data } => {
                self.apply_ins_arr(*id, *obj, *reference, data);
            },
            DecodedOp::UpdArr { obj, reference, val, .. } => {
                self.apply_upd_arr(*obj, *reference, *val);
            },
            DecodedOp::Del { obj, what, .. } => {
                self.apply_del(*obj, what);
            },
            DecodedOp::Nop { .. } => {},
        }
        Ok(())
    }

    /// The position of the node `id` in the store (the length when absent).
    pub(super) fn find_node(&self, id: Timestamp) -> (res: usize)
        ensures
            res == pos_of(store_view(self.nodes@), id),
    {
        let mut i: usize = 0;
        while i < self.nodes.len() && self.nodes[i].0 != id
            invariant
                i <= self.nodes@.len(),
                forall|j: int| 0 <= j < i ==> self.nodes@[j].0 != id,
            decreases self.nodes.len() - i,
        {
            i = i + 1;
        }
        proof {
            let sv = store_view(self.nodes@);
            assert forall|j: int| 0 <= j < i implies sv[j].0 != id by {
                assert(sv[j].0 == self.nodes@[j].0);
            }
            if i < self.nodes@.len() {
                assert(sv[i as int].0 == self.nodes@[i as int].0);
            }
            lemma_pos_of_at(sv, id, i as int);
        }
        i
    }

    /// Removes the node `value` and the subtree under it.
    fn gc_tree(&mut self, value: Timestamp)
        ensures
            store_view(final(self).nodes@) == gc_node(store_view(old(self).nodes@), value),
            final(self).nodes@.len() <= old(self).nodes@.len(),
            final(self).root == old(self).root,
            final(self).clock == old(self).clock,
            final(self).fallback_view == old(self).fallback_view,
            final(self).infer_empty_object_root == old(self).infer_empty_object_root,
            final(self).clock_table == old(self).clock_table,
            final(self).server_clock_time == old(self).server_clock_time,
        decreases old(self).nodes@.len(),
    {
        let ghost s0 = store_view(self.nodes@);
        proof {
            lemma_gc_node_len(s0, value);
        }
        if value.sid == 0 && value.time == 0 {
            return;
        }
        let p = self.find_node(value);
        if p >= self.nodes.len() {
            return;
        }
        let (_, node) = self.nodes.remove(p);
        let ghost s1 = store_view(self.nodes@);
        let ghost cs = child_refs(node.nv());
        let ghost f = s1.len();
        proof {
            assert(s1 =~= remove_node(s0, value));
            assert(node_at(s0, value) == node.nv());
            assert(gc_node(s0, value) == gc_refs(s1, cs, f));
        }
        match node {
            RuntimeNode::Val(child) => {
                proof {
                    assert(cs[0] == Some(child));
                    assert(cs.drop_first() =~= Seq::<Option<Timestamp>>::empty());
                    assert(gc_refs(gc_fuel(s1, child, f), cs.drop_first(), f) == gc_fuel(s1, child, f));
                }
                self.gc_tree(child);
            },
            RuntimeNode::Obj(entries) => {
                let mut i: usize = 0;
                assert(cs.skip(0) =~= cs);
                while i < entries.len()
                    invariant
                        i <= entries@.len(),
                        cs == child_refs(NodeV::Obj(obj_entries_view(entries@))),
                        self.nodes@.len() <= f,
                        f < old(self).nodes@.len(),
                        gc_refs(store_view(self.nodes@), cs.skip(i as int), f) == gc_refs(s1, cs, f),
                        self.root == old(self).root,
                        self.clock == old(self).clock,
                        self.fallback_view == old(self).fallback_view,
                        self.infer_empty_object_root == old(self).infer_empty_object_root,
                        self.clock_table == old(self).clock_table,
                        self.server_clock_time == old(self).server_clock_time,
                    decreases entries.len() - i,
                {
                    let c = entries[i].1;
                    let ghost cur = store_view(self.nodes@);
                    proof {
                        assert(cs.skip(i as int)[0] == Some(c));
                        assert(cs.skip(i as int).drop_first() =~= cs.skip(i + 1));
                        lemma_gc_fuel(cur, c, f, cur.len());
                    }
                    self.gc_tree(c);
                    i = i + 1;
                }
                proof {
                    assert(cs.skip(i as int) =~= Seq::<Option<Timestamp>>::empty());
                }
            },
            RuntimeNode::Vec(entries) => {
                let mut i: usize = 0;
                assert(cs.skip(0) =~= cs);
                while i < entries.len()
                    invariant
                        i <= entries@.len(),
                        cs == child_refs(NodeV::Vec(entries@)),
                        self.nodes@.len() <= f,
                        f < old(self).nodes@.len(),
                        gc_refs(store_view(self.nodes@), cs.skip(i as int), f) == gc_refs(s1, cs, f),
                        self.root == old(self).root,
                        self.clock == old(self).clock,
                        self.fallback_view == old(self).fallback_view,
                        self.infer_empty_object_root == old(self).infer_empty_object_root,
                        self.clock_table == old(self).clock_table,
                        self.server_clock_time == old(self).server_clock_time,
                    decreases entries.len() - i,
                {
                    let c = entries[i].1;
                    let ghost cur = store_view(self.nodes@);
                    proof {
                        assert(cs.skip(i as int)[0] == Some(c));
                        assert(cs.skip(i as int).drop_first() =~= cs.skip(i + 1));
                        lemma_gc_fuel(cur, c, f, cur.len());
                    }
                    self.gc_tree(c);
                    i = i + 1;
                }
                proof {
                    assert(cs.skip(i as int) =~= Seq::<Option<Timestamp>>::empty());
                }
            },
            RuntimeNode::Arr(atoms) => {
                let mut i: usize = 0;
                assert(cs.skip(0) =~= cs);
                while i < atoms.len()
                    invariant
                        i <= atoms@.len(),
                        cs == child_refs(NodeV::Arr(arr_atoms_view(atoms@))),
                        self.nodes@.len() <= f,
                        f < old(self).nodes@.len(),
                        gc_refs(store_view(self.nodes@), cs.skip(i as int), f) == gc_refs(s1, cs, f),
                        self.root == old(self).root,
                        self.clock == old(self).clock,
                        self.fallback_view == old(self).fallback_view,
                        self.infer_empty_object_root == old(self).infer_empty_object_root,
                        self.clock_table == old(self).clock_table,
                        self.server_clock_time == old(self).server_clock_time,
                    decreases atoms.len() - i,
                {
                    let ghost cur = store_view(self.nodes@);
                    proof {
                        assert(cs.skip(i as int)[0] == atoms@[i as int].value);
                        assert(cs.skip(i as int).drop_first() =~= cs.skip(i + 1));
                    }
                    if let Some(c) = atoms[i].value {
                        proof {
                            lemma_gc_fuel(cur, c, f, cur.len());
                        }
                        self.gc_tree(c);
                    }
                    i = i + 1;
                }
                proof {
                    assert(cs.skip(i as int) =~= Seq::<Option<Timestamp>>::empty());
                }
            },
            _ => {
                proof {
                    assert(cs =~= Seq::<Option<Timestamp>>::empty());
                }
            },
        }
    }
}


/// Law (text insertion): inserting into a string node after a slot whose
/// next slot is older than the insertion (or that is the last one) puts the
/// new characters right after that slot, the other slots keeping their
/// order; typing into the middle of text lands where the reference is.
pub proof fn lemma_ins_str_lands_after(
    g: GraphView,
    id: Timestamp,
    obj: Timestamp,
    reference: Timestamp,
    data: Seq<char>,
    atoms: Seq<(Timestamp, Option<char>)>,
    p: int,
)
    requires
        has_node(g.nodes, obj),
        node_at(g.nodes, obj) == NodeV::Str(atoms),
        reference != obj,
        0 <= p < atoms.len(),
        atoms[p].0 == reference,
        forall|j: int| 0 <= j < p ==> atoms[j].0 != reference,
        p + 1 < atoms.len() ==> id_lt(atoms[p + 1].0, id),
    ensures
        has_node(ins_str(g, id, obj, reference, data).nodes, obj),
        node_at(ins_str(g, id, obj, reference, data).nodes, obj)
            == NodeV::Str(atoms.take(p + 1) + new_atoms(atoms, id, data) + atoms.skip(p + 1)),
{
    let slots = slots_of(atoms);
    assert(slots.len() == atoms.len());
    assert forall|j: int| 0 <= j < p implies slots[j] != reference by {
        assert(slots[j] == atoms[j].0);
    }
    assert(slots[p] == reference);
    super::rga::lemma_seq_pos_at(slots, reference, p);
    super::rga::lemma_rga_placement(slots, reference, obj, id);
    if p + 1 < atoms.len() {
        assert(slots[p + 1] == atoms[p + 1].0);
        assert(slots[p + 1] != id);
    }
    assert(rga_insert_index(slots, reference, obj, id) == Some(p + 1)) by {
        assert(super::rga::rga_scan(slots, p, id) == Some(p + 1));
    }
    let n = NodeV::Str(splice_at(atoms, p + 1, new_atoms(atoms, id, data)));
    let q = pos_of(g.nodes, obj);
    lemma_pos_of(g.nodes, obj);
    let t = g.nodes.update(q, (obj, n));
    assert forall|j: int| 0 <= j < q implies t[j].0 != obj by {
        assert(t[j] == g.nodes[j]);
    }
    lemma_pos_of_at(t, obj, q);
}

} // verus!
