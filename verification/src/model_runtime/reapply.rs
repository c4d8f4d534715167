//! Delivering an operation a second time: for node creations, writes of
//! the document root, insertions into sequences, deletions from strings and
//! binaries, and no-ops, the graph after the second delivery is the graph
//! after the first.

use vstd::prelude::*;
use crate::patch::{ConValue, DecodedOp, Timestamp, Timespan};
use super::GraphView;
use super::apply::{apply_op_spec, del, del_one, del_run, del_spans, ins_arr, ins_bin, ins_str, new_arr_atoms, new_atoms, new_node, slot_at, splice_at};
use super::rga::{lemma_rga_insert_index_range, rga_insert_index, slots_of};
use super::types::{add_node, ConCellV, has_node, is_system_origin, lemma_pos_of, lemma_pos_of_at, lemma_pos_of_same_keys, node_at, pos_of, set_node, NodeV};

verus! {

/// Adding a node keeps it held.
proof fn lemma_add_has(s: Seq<(Timestamp, NodeV)>, k: Timestamp, n: NodeV)
    ensures
        has_node(add_node(s, k, n), k),
{
    if !has_node(s, k) {
        let t = s.push((k, n));
        lemma_pos_of(t, k);
        if pos_of(t, k) >= t.len() {
            assert(t[s.len() as int].0 == k);
        }
    }
}

/// Setting a node to what it holds changes nothing.
proof fn lemma_set_same(s: Seq<(Timestamp, NodeV)>, k: Timestamp, n: NodeV)
    requires
        has_node(s, k),
        node_at(s, k) == n,
    ensures
        set_node(s, k, n) == s,
{
    lemma_pos_of(s, k);
    assert(s.update(pos_of(s, k), (k, n)) =~= s);
}

/// A node set is held with its new content, and the same identifiers are
/// held as before.
proof fn lemma_set_at(s: Seq<(Timestamp, NodeV)>, k: Timestamp, n: NodeV, v: Timestamp)
    requires
        has_node(s, k),
    ensures
        has_node(set_node(s, k, n), k),
        node_at(set_node(s, k, n), k) == n,
        has_node(set_node(s, k, n), v) == has_node(s, v),
{
    lemma_pos_of(s, k);
    let p = pos_of(s, k);
    let t = set_node(s, k, n);
    assert forall|j: int| 0 <= j < p implies t[j].0 != k by {
        assert(t[j] == s[j]);
    }
    lemma_pos_of_at(t, k, p);
    lemma_pos_of_same_keys(s, t, v);
}

/// Whether the slot `k` is among the atoms.
pub open spec fn slot_held<V>(atoms: Seq<(Timestamp, V)>, k: Timestamp) -> bool {
    exists|j: int| 0 <= j < atoms.len() && atoms[j].0 == k
}

proof fn lemma_held_pos<V>(atoms: Seq<(Timestamp, V)>, k: Timestamp)
    ensures
        slot_held(atoms, k) <==> pos_of(atoms, k) < atoms.len(),
{
    lemma_pos_of(atoms, k);
    if slot_held(atoms, k) {
        let j = choose|j: int| 0 <= j < atoms.len() && atoms[j].0 == k;
        if pos_of(atoms, k) >= atoms.len() {
            assert(atoms[j].0 != k);
        }
    }
    if pos_of(atoms, k) < atoms.len() {
        assert(atoms[pos_of(atoms, k)].0 == k);
    }
}

/// A slot of an insertion is held once the insertion is spliced in.
proof fn lemma_new_atoms_held<T>(atoms: Seq<(Timestamp, Option<T>)>, id: Timestamp, data: Seq<T>, i: int)
    requires
        0 <= i < data.len(),
        !slot_held(atoms, slot_at(id, i)),
    ensures
        slot_held(new_atoms(atoms, id, data), slot_at(id, i)),
    decreases data.len(),
{
    let n = data.len() as int;
    let rest = new_atoms(atoms, id, data.drop_last());
    lemma_held_pos(atoms, slot_at(id, n - 1));
    if i == n - 1 {
        let r = rest.push((slot_at(id, i), Some(data.last())));
        assert(r[rest.len() as int].0 == slot_at(id, i));
    } else {
        assert(data.drop_last()[i] == data[i]);
        lemma_new_atoms_held(atoms, id, data.drop_last(), i);
        let j = choose|j: int| 0 <= j < rest.len() && rest[j].0 == slot_at(id, i);
        if pos_of(atoms, slot_at(id, n - 1)) >= atoms.len() {
            assert(rest.push((slot_at(id, n - 1), Some(data.last())))[j] == rest[j]);
        }
    }
}

/// Nothing is new in an insertion whose slots are all held.
proof fn lemma_new_atoms_none<T>(atoms: Seq<(Timestamp, Option<T>)>, id: Timestamp, data: Seq<T>)
    requires
        forall|i: int| 0 <= i < data.len() ==> slot_held(atoms, #[trigger] slot_at(id, i)),
    ensures
        new_atoms(atoms, id, data) == Seq::<(Timestamp, Option<T>)>::empty(),
    decreases data.len(),
{
    if data.len() > 0 {
        let n = data.len() as int;
        assert(slot_held(atoms, slot_at(id, n - 1)));
        lemma_held_pos(atoms, slot_at(id, n - 1));
        lemma_new_atoms_none(atoms, id, data.drop_last());
    }
}

/// A slot held before a splice is held after it.
proof fn lemma_splice_keeps<A>(atoms: Seq<(Timestamp, A)>, idx: int, ins: Seq<(Timestamp, A)>, k: Timestamp)
    requires
        0 <= idx <= atoms.len(),
        slot_held(atoms, k),
    ensures
        slot_held(splice_at(atoms, idx, ins), k),
{
    let j = choose|j: int| 0 <= j < atoms.len() && atoms[j].0 == k;
    let t = splice_at(atoms, idx, ins);
    if j < idx {
        assert(t[j] == atoms[j]);
    } else {
        assert(t[j + ins.len()] == atoms[j]);
    }
}

/// A slot held by the spliced-in part is held after the splice.
proof fn lemma_splice_ins<A>(atoms: Seq<(Timestamp, A)>, idx: int, ins: Seq<(Timestamp, A)>, k: Timestamp)
    requires
        0 <= idx <= atoms.len(),
        slot_held(ins, k),
    ensures
        slot_held(splice_at(atoms, idx, ins), k),
{
    let j = choose|j: int| 0 <= j < ins.len() && ins[j].0 == k;
    let t = splice_at(atoms, idx, ins);
    assert(t[idx + j] == ins[j]);
}

/// Splicing nothing in changes nothing.
proof fn lemma_splice_empty<A>(atoms: Seq<A>, idx: int)
    requires
        0 <= idx <= atoms.len(),
    ensures
        splice_at(atoms, idx, Seq::<A>::empty()) == atoms,
{
    assert(atoms.take(idx) + Seq::<A>::empty() + atoms.skip(idx) =~= atoms);
}

/// After an insertion is spliced in, all its slots are held.
proof fn lemma_inserted_all_held<T>(atoms: Seq<(Timestamp, Option<T>)>, idx: int, id: Timestamp, data: Seq<T>)
    requires
        0 <= idx <= atoms.len(),
    ensures
        forall|i: int| 0 <= i < data.len() ==> slot_held(splice_at(atoms, idx, new_atoms(atoms, id, data)), #[trigger] slot_at(id, i)),
{
    assert forall|i: int| 0 <= i < data.len() implies slot_held(splice_at(atoms, idx, new_atoms(atoms, id, data)), #[trigger] slot_at(id, i)) by {
        if slot_held(atoms, slot_at(id, i)) {
            lemma_splice_keeps(atoms, idx, new_atoms(atoms, id, data), slot_at(id, i));
        } else {
            lemma_new_atoms_held(atoms, id, data, i);
            lemma_splice_ins(atoms, idx, new_atoms(atoms, id, data), slot_at(id, i));
        }
    }
}


/// A value slot of an array insertion that is taken is held once the
/// insertion is spliced in.
proof fn lemma_new_arr_held(
    atoms: Seq<(Timestamp, Option<Timestamp>)>,
    nodes: Seq<(Timestamp, NodeV)>,
    obj: Timestamp,
    id: Timestamp,
    data: Seq<Timestamp>,
    i: int,
)
    requires
        0 <= i < data.len(),
        has_node(nodes, data[i]) && obj.time < data[i].time,
        !slot_held(atoms, slot_at(id, i)),
    ensures
        slot_held(new_arr_atoms(atoms, nodes, obj, id, data), slot_at(id, i)),
    decreases data.len(),
{
    let n = data.len() as int;
    let rest = new_arr_atoms(atoms, nodes, obj, id, data.drop_last());
    lemma_held_pos(atoms, slot_at(id, n - 1));
    if i == n - 1 {
        let r = rest.push((slot_at(id, i), Some(data.last())));
        assert(r[rest.len() as int].0 == slot_at(id, i));
    } else {
        assert(data.drop_last()[i] == data[i]);
        lemma_new_arr_held(atoms, nodes, obj, id, data.drop_last(), i);
        let j = choose|j: int| 0 <= j < rest.len() && rest[j].0 == slot_at(id, i);
        if has_node(nodes, data.last()) && obj.time < data.last().time && pos_of(atoms, slot_at(id, n - 1)) >= atoms.len() {
            assert(rest.push((slot_at(id, n - 1), Some(data.last())))[j] == rest[j]);
        }
    }
}

/// Nothing is new in an array insertion whose taken slots are all held.
proof fn lemma_new_arr_none(
    atoms: Seq<(Timestamp, Option<Timestamp>)>,
    nodes: Seq<(Timestamp, NodeV)>,
    obj: Timestamp,
    id: Timestamp,
    data: Seq<Timestamp>,
)
    requires
        forall|i: int| 0 <= i < data.len() && has_node(nodes, data[i]) && obj.time < data[i].time
            ==> slot_held(atoms, #[trigger] slot_at(id, i)),
    ensures
        new_arr_atoms(atoms, nodes, obj, id, data) == Seq::<(Timestamp, Option<Timestamp>)>::empty(),
    decreases data.len(),
{
    if data.len() > 0 {
        let n = data.len() as int;
        if has_node(nodes, data[n - 1]) && obj.time < data[n - 1].time {
            assert(slot_held(atoms, slot_at(id, n - 1)));
        }
        lemma_held_pos(atoms, slot_at(id, n - 1));
        assert forall|i: int| 0 <= i < data.drop_last().len() && has_node(nodes, data.drop_last()[i])
            && obj.time < data.drop_last()[i].time implies slot_held(atoms, #[trigger] slot_at(id, i)) by {
            assert(data.drop_last()[i] == data[i]);
        }
        lemma_new_arr_none(atoms, nodes, obj, id, data.drop_last());
    }
}

/// After an array insertion is spliced in, its taken slots are all held.
proof fn lemma_arr_inserted_held(
    atoms: Seq<(Timestamp, Option<Timestamp>)>,
    nodes: Seq<(Timestamp, NodeV)>,
    obj: Timestamp,
    idx: int,
    id: Timestamp,
    data: Seq<Timestamp>,
)
    requires
        0 <= idx <= atoms.len(),
    ensures
        forall|i: int| 0 <= i < data.len() && has_node(nodes, data[i]) && obj.time < data[i].time
            ==> slot_held(splice_at(atoms, idx, new_arr_atoms(atoms, nodes, obj, id, data)), #[trigger] slot_at(id, i)),
{
    let ins = new_arr_atoms(atoms, nodes, obj, id, data);
    assert forall|i: int| 0 <= i < data.len() && has_node(nodes, data[i]) && obj.time < data[i].time
        implies slot_held(splice_at(atoms, idx, ins), #[trigger] slot_at(id, i)) by {
        if slot_held(atoms, slot_at(id, i)) {
            lemma_splice_keeps(atoms, idx, ins, slot_at(id, i));
        } else {
            lemma_new_arr_held(atoms, nodes, obj, id, data, i);
            lemma_splice_ins(atoms, idx, ins, slot_at(id, i));
        }
    }
}

/// Whether the slot `k` is absent or already cleared.
pub open spec fn cleared<T>(atoms: Seq<(Timestamp, Option<T>)>, k: Timestamp) -> bool {
    pos_of(atoms, k) >= atoms.len() || atoms[pos_of(atoms, k)].1 is None
}

/// The slot `j` of the run `sp`.
pub open spec fn run_slot(sp: Timespan, j: int) -> Timestamp {
    Timestamp { sid: sp.sid, time: (sp.time + j) as u64 }
}

/// Whether every slot of the runs is absent or cleared.
pub open spec fn all_cleared<T>(atoms: Seq<(Timestamp, Option<T>)>, what: Seq<Timespan>) -> bool {
    forall|k: int, j: int| 0 <= k < what.len() && 0 <= j < what[k].span ==> cleared(atoms, #[trigger] run_slot(what[k], j))
}

/// Clearing one slot clears it and keeps every cleared slot cleared.
proof fn lemma_del_one<T>(st: (Seq<(Timestamp, Option<T>)>, Seq<T>), slot: Timestamp, k: Timestamp)
    ensures
        cleared(del_one(st, slot).0, slot),
        cleared(st.0, k) ==> cleared(del_one(st, slot).0, k),
        cleared(st.0, slot) ==> del_one(st, slot).0 == st.0,
{
    let a = st.0;
    let p = pos_of(a, slot);
    lemma_pos_of(a, slot);
    if p < a.len() {
        let a2 = a.update(p, (a[p].0, None::<T>));
        lemma_pos_of_same_keys(a, a2, slot);
        lemma_pos_of_same_keys(a, a2, k);
        let q = pos_of(a, k);
        lemma_pos_of(a, k);
        if q < a.len() && q != p {
            assert(a2[q] == a[q]);
        }
        if cleared(a, slot) {
            assert(a2 =~= a);
        }
    }
}

/// Clearing the first `n` slots of a run keeps cleared slots cleared.
proof fn lemma_run_keeps<T>(st: (Seq<(Timestamp, Option<T>)>, Seq<T>), sp: Timespan, n: nat, k: Timestamp)
    requires
        cleared(st.0, k),
    ensures
        cleared(del_run(st, sp, n).0, k),
    decreases n,
{
    if n > 0 {
        lemma_run_keeps(st, sp, (n - 1) as nat, k);
        lemma_del_one(del_run(st, sp, (n - 1) as nat), Timestamp { sid: sp.sid, time: (sp.time + n - 1) as u64 }, k);
    }
}

/// Clearing the first `n` slots of a run clears them.
proof fn lemma_run_clears<T>(st: (Seq<(Timestamp, Option<T>)>, Seq<T>), sp: Timespan, n: nat)
    ensures
        forall|j: int| 0 <= j < n ==> cleared(del_run(st, sp, n).0, #[trigger] run_slot(sp, j)),
    decreases n,
{
    if n > 0 {
        let prev = del_run(st, sp, (n - 1) as nat);
        let slot = Timestamp { sid: sp.sid, time: (sp.time + n - 1) as u64 };
        lemma_run_clears(st, sp, (n - 1) as nat);
        assert forall|j: int| 0 <= j < n implies cleared(del_run(st, sp, n).0, #[trigger] run_slot(sp, j)) by {
            lemma_del_one(prev, slot, run_slot(sp, j));
        }
    }
}

/// Clearing slots that are all cleared changes nothing.
proof fn lemma_run_noop<T>(st: (Seq<(Timestamp, Option<T>)>, Seq<T>), sp: Timespan, n: nat)
    requires
        forall|j: int| 0 <= j < n ==> cleared(st.0, #[trigger] run_slot(sp, j)),
    ensures
        del_run(st, sp, n).0 == st.0,
    decreases n,
{
    if n > 0 {
        lemma_run_noop(st, sp, (n - 1) as nat);
        let prev = del_run(st, sp, (n - 1) as nat);
        assert(cleared(st.0, run_slot(sp, n - 1)));
        lemma_del_one(prev, Timestamp { sid: sp.sid, time: (sp.time + n - 1) as u64 }, run_slot(sp, n - 1));
    }
}

/// Deleting runs keeps cleared slots cleared.
proof fn lemma_spans_keeps<T>(atoms: Seq<(Timestamp, Option<T>)>, what: Seq<Timespan>, k: Timestamp)
    requires
        cleared(atoms, k),
    ensures
        cleared(del_spans(atoms, what).0, k),
    decreases what.len(),
{
    if what.len() > 0 {
        lemma_spans_keeps(atoms, what.drop_last(), k);
        lemma_run_keeps(del_spans(atoms, what.drop_last()), what.last(), what.last().span as nat, k);
    }
}

/// Deleting runs clears all their slots.
proof fn lemma_spans_clears<T>(atoms: Seq<(Timestamp, Option<T>)>, what: Seq<Timespan>)
    ensures
        all_cleared(del_spans(atoms, what).0, what),
    decreases what.len(),
{
    if what.len() > 0 {
        let w0 = what.drop_last();
        let prev = del_spans(atoms, w0);
        lemma_spans_clears(atoms, w0);
        lemma_run_clears(prev, what.last(), what.last().span as nat);
        assert forall|k: int, j: int| 0 <= k < what.len() && 0 <= j < what[k].span
            implies cleared(del_spans(atoms, what).0, #[trigger] run_slot(what[k], j)) by {
            if k < what.len() - 1 {
                assert(w0[k] == what[k]);
                assert(cleared(prev.0, run_slot(w0[k], j)));
                lemma_run_keeps(prev, what.last(), what.last().span as nat, run_slot(what[k], j));
            }
        }
    }
}

/// Deleting runs whose slots are all cleared changes nothing.
proof fn lemma_spans_noop<T>(atoms: Seq<(Timestamp, Option<T>)>, what: Seq<Timespan>)
    requires
        all_cleared(atoms, what),
    ensures
        del_spans(atoms, what).0 == atoms,
    decreases what.len(),
{
    if what.len() > 0 {
        let w0 = what.drop_last();
        assert forall|k: int, j: int| 0 <= k < w0.len() && 0 <= j < w0[k].span
            implies cleared(atoms, #[trigger] run_slot(w0[k], j)) by {
            assert(w0[k] == what[k]);
        }
        lemma_spans_noop(atoms, w0);
        let prev = del_spans(atoms, w0);
        assert forall|j: int| 0 <= j < what.last().span implies cleared(prev.0, #[trigger] run_slot(what.last(), j)) by {
            assert(what.last() == what[what.len() - 1]);
        }
        lemma_run_noop(prev, what.last(), what.last().span as nat);
    }
}


/// Inserting into a string node a second time changes nothing.
proof fn lemma_ins_str_twice(g: GraphView, id: Timestamp, obj: Timestamp, reference: Timestamp, data: Seq<char>)
    ensures
        ins_str(ins_str(g, id, obj, reference, data), id, obj, reference, data) == ins_str(g, id, obj, reference, data),
{
    let g1 = ins_str(g, id, obj, reference, data);
    if has_node(g.nodes, obj) {
        if let NodeV::Str(atoms) = node_at(g.nodes, obj) {
            lemma_rga_insert_index_range(slots_of(atoms), reference, obj, id);
            if let Some(idx) = rga_insert_index(slots_of(atoms), reference, obj, id) {
                let atoms2 = splice_at(atoms, idx, new_atoms(atoms, id, data));
                lemma_set_at(g.nodes, obj, NodeV::Str(atoms2), obj);
                lemma_inserted_all_held(atoms, idx, id, data);
                lemma_new_atoms_none(atoms2, id, data);
                lemma_rga_insert_index_range(slots_of(atoms2), reference, obj, id);
                if let Some(idx2) = rga_insert_index(slots_of(atoms2), reference, obj, id) {
                    lemma_splice_empty(atoms2, idx2);
                    lemma_set_same(g1.nodes, obj, NodeV::Str(atoms2));
                }
            }
        }
    }
}

/// Inserting into a binary node a second time changes nothing.
proof fn lemma_ins_bin_twice(g: GraphView, id: Timestamp, obj: Timestamp, reference: Timestamp, data: Seq<u8>)
    ensures
        ins_bin(ins_bin(g, id, obj, reference, data), id, obj, reference, data) == ins_bin(g, id, obj, reference, data),
{
    let g1 = ins_bin(g, id, obj, reference, data);
    if has_node(g.nodes, obj) {
        if let NodeV::Bin(atoms) = node_at(g.nodes, obj) {
            lemma_rga_insert_index_range(slots_of(atoms), reference, obj, id);
            if let Some(idx) = rga_insert_index(slots_of(atoms), reference, obj, id) {
                let atoms2 = splice_at(atoms, idx, new_atoms(atoms, id, data));
                lemma_set_at(g.nodes, obj, NodeV::Bin(atoms2), obj);
                lemma_inserted_all_held(atoms, idx, id, data);
                lemma_new_atoms_none(atoms2, id, data);
                lemma_rga_insert_index_range(slots_of(atoms2), reference, obj, id);
                if let Some(idx2) = rga_insert_index(slots_of(atoms2), reference, obj, id) {
                    lemma_splice_empty(atoms2, idx2);
                    lemma_set_same(g1.nodes, obj, NodeV::Bin(atoms2));
                }
            }
        }
    }
}

/// Inserting into an array node a second time changes nothing.
proof fn lemma_ins_arr_twice(g: GraphView, id: Timestamp, obj: Timestamp, reference: Timestamp, data: Seq<Timestamp>)
    ensures
        ins_arr(ins_arr(g, id, obj, reference, data), id, obj, reference, data) == ins_arr(g, id, obj, reference, data),
{
    let g1 = ins_arr(g, id, obj, reference, data);
    if has_node(g.nodes, obj) {
        if let NodeV::Arr(atoms) = node_at(g.nodes, obj) {
            lemma_rga_insert_index_range(slots_of(atoms), reference, obj, id);
            if let Some(idx) = rga_insert_index(slots_of(atoms), reference, obj, id) {
                let atoms2 = splice_at(atoms, idx, new_arr_atoms(atoms, g.nodes, obj, id, data));
                lemma_set_at(g.nodes, obj, NodeV::Arr(atoms2), obj);
                lemma_arr_inserted_held(atoms, g.nodes, obj, idx, id, data);
                assert forall|i: int| 0 <= i < data.len() && has_node(g1.nodes, data[i]) && obj.time < data[i].time
                    implies slot_held(atoms2, #[trigger] slot_at(id, i)) by {
                    lemma_set_at(g.nodes, obj, NodeV::Arr(atoms2), data[i]);
                }
                lemma_new_arr_none(atoms2, g1.nodes, obj, id, data);
                lemma_rga_insert_index_range(slots_of(atoms2), reference, obj, id);
                if let Some(idx2) = rga_insert_index(slots_of(atoms2), reference, obj, id) {
                    lemma_splice_empty(atoms2, idx2);
                    lemma_set_same(g1.nodes, obj, NodeV::Arr(atoms2));
                }
            }
        }
    }
}

/// Deleting from a string or binary node a second time changes nothing.
proof fn lemma_del_twice(g: GraphView, obj: Timestamp, what: Seq<Timespan>)
    requires
        !(has_node(g.nodes, obj) && node_at(g.nodes, obj) is Arr),
    ensures
        del(del(g, obj, what), obj, what) == del(g, obj, what),
{
    let g1 = del(g, obj, what);
    if has_node(g.nodes, obj) {
        match node_at(g.nodes, obj) {
            NodeV::Str(atoms) => {
                let a2 = del_spans(atoms, what).0;
                lemma_set_at(g.nodes, obj, NodeV::Str(a2), obj);
                lemma_spans_clears(atoms, what);
                lemma_spans_noop(a2, what);
                lemma_set_same(g1.nodes, obj, NodeV::Str(a2));
            },
            NodeV::Bin(atoms) => {
                let a2 = del_spans(atoms, what).0;
                lemma_set_at(g.nodes, obj, NodeV::Bin(a2), obj);
                lemma_spans_clears(atoms, what);
                lemma_spans_noop(a2, what);
                lemma_set_same(g1.nodes, obj, NodeV::Bin(a2));
            },
            _ => {},
        }
    }
}

/// Law: delivering again a node creation, a write of the document root, an
/// insertion into a string, binary or array node, a deletion from a string
/// or binary node, or a no-op leaves the graph as the first delivery left
/// it.
pub proof fn lemma_reapply(g: GraphView, infer: bool, op: DecodedOp)
    requires
        !(op is InsObj || op is InsVec || op is UpdArr),
        match op {
            DecodedOp::Del { obj, .. } => !(has_node(g.nodes, obj) && node_at(g.nodes, obj) is Arr),
            DecodedOp::InsVal { obj, .. } => is_system_origin(obj),
            _ => true,
        },
    ensures
        apply_op_spec(apply_op_spec(g, infer, op), infer, op) == apply_op_spec(g, infer, op),
{
    match op {
        DecodedOp::NewCon { id, value } => {
            let n = NodeV::Con(match value {
                ConValue::Json(v) => ConCellV::Json(v.jv()),
                ConValue::Ref(t) => ConCellV::Ref(t),
                ConValue::Undef => ConCellV::Undef,
            });
            lemma_add_has(g.nodes, id, n);
        },
        DecodedOp::NewVal { id } => {
            lemma_add_has(g.nodes, id, NodeV::Val(Timestamp { sid: 0, time: 0 }));
        },
        DecodedOp::NewObj { id } => {
            lemma_add_has(g.nodes, id, NodeV::Obj(Seq::empty()));
        },
        DecodedOp::NewVec { id } => {
            lemma_add_has(g.nodes, id, NodeV::Vec(Seq::empty()));
        },
        DecodedOp::NewStr { id } => {
            lemma_add_has(g.nodes, id, NodeV::Str(Seq::empty()));
        },
        DecodedOp::NewBin { id } => {
            lemma_add_has(g.nodes, id, NodeV::Bin(Seq::empty()));
        },
        DecodedOp::NewArr { id } => {
            lemma_add_has(g.nodes, id, NodeV::Arr(Seq::empty()));
        },
        DecodedOp::InsStr { id, obj, reference, data } => {
            lemma_ins_str_twice(g, id, obj, reference, data@);
        },
        DecodedOp::InsBin { id, obj, reference, data } => {
            lemma_ins_bin_twice(g, id, obj, reference, data@);
        },
        DecodedOp::InsArr { id, obj, reference, data } => {
            lemma_ins_arr_twice(g, id, obj, reference, data@);
        },
        DecodedOp::Del { obj, what, .. } => {
            lemma_del_twice(g, obj, what@);
        },
        _ => {},
    }
}

} // verus!
