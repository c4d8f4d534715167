//! Building a runtime graph from a JSON view, for models whose node graph
//! cannot be decoded: every value gets a fresh identifier of one session,
//! with times counting up from 1 in depth-first order (a container before its
//! children, string and array slots after them), saturating at `u64::MAX`.

use vstd::prelude::*;
use crate::json::{JsonValue, JsonView};
use crate::patch::Timestamp;
use super::decode::{put_node, chunk_slot};
use super::types::{ConCell, ConCellV, RuntimeNode, NodeV, StrAtom, ArrAtom, store_view, obj_entries_view, str_atoms_view, arr_atoms_view};
use crate::model_runtime::view::items_jv;
use crate::text::str_chars;

verus! {

/// `a + b`, saturating at `u64::MAX`.
pub open spec fn sat_add(a: u64, b: int) -> u64 {
    if a + b > u64::MAX {
        u64::MAX
    } else {
        (a + b) as u64
    }
}

/// The slots of a run of `n` items with values `vals` from time `base`.
pub open spec fn boot_slots<T>(sid: u64, base: u64, vals: Seq<T>) -> Seq<(Timestamp, Option<T>)> {
    Seq::new(vals.len(), |i: int| (chunk_slot(Timestamp { sid, time: base }, i), Some(vals[i])))
}

/// The nodes for `v`, put into `s`, with the next free time `next`: the
/// store, the identifier of `v`'s node, and the next free time after it.
pub open spec fn boot(s: Seq<(Timestamp, NodeV)>, v: JsonView, sid: u64, next: u64) -> (Seq<(Timestamp, NodeV)>, Timestamp, u64)
    decreases v, 1nat,
{
    let id = Timestamp { sid, time: next };
    let n1 = sat_add(next, 1);
    match v {
        JsonView::String(t) => {
            let n2 = sat_add(n1, t.len() as int);
            (put_node(s, id, NodeV::Str(boot_slots(sid, n1, t))), id, n2)
        },
        JsonView::Array(items) => {
            let (s1, ids, n2) = boot_items(s, items, sid, n1);
            if ids.len() == 0 {
                (put_node(s1, id, NodeV::Arr(Seq::empty())), id, n2)
            } else {
                (put_node(s1, id, NodeV::Arr(boot_slots(sid, n2, ids))), id, sat_add(n2, ids.len() as int))
            }
        },
        JsonView::Object(es) => {
            let (s1, kids, n2) = boot_entries(s, es, sid, n1);
            (put_node(s1, id, NodeV::Obj(kids)), id, n2)
        },
        _ => (put_node(s, id, NodeV::Con(ConCellV::Json(v))), id, n1),
    }
}

/// The nodes for the items, in order.
pub open spec fn boot_items(s: Seq<(Timestamp, NodeV)>, items: Seq<JsonView>, sid: u64, next: u64) -> (Seq<(Timestamp, NodeV)>, Seq<Timestamp>, u64)
    decreases items, 0nat,
{
    if items.len() == 0 {
        (s, Seq::empty(), next)
    } else {
        let (s1, ids, n1) = boot_items(s, items.drop_last(), sid, next);
        let (s2, id, n2) = boot(s1, items.last(), sid, n1);
        (s2, ids.push(id), n2)
    }
}

/// The nodes for the object entries' values, in order, with their keys.
pub open spec fn boot_entries(s: Seq<(Timestamp, NodeV)>, es: Seq<(Seq<char>, JsonView)>, sid: u64, next: u64) -> (Seq<(Timestamp, NodeV)>, Seq<(Seq<char>, Timestamp)>, u64)
    decreases es, 0nat,
{
    if es.len() == 0 {
        (s, Seq::empty(), next)
    } else {
        let (s1, kids, n1) = boot_entries(s, es.drop_last(), sid, next);
        let (s2, id, n2) = boot(s1, es.last().1, sid, n1);
        (s2, kids.push((es.last().0, id)), n2)
    }
}


struct Bootstrap {
    sid: u64,
    next_time: u64,
    nodes: Vec<(Timestamp, RuntimeNode)>,
}

impl Bootstrap {
    fn put(&mut self, id: Timestamp, node: RuntimeNode)
        ensures
            store_view(final(self).nodes@) == put_node(store_view(old(self).nodes@), id, node.nv()),
            final(self).sid == old(self).sid,
            final(self).next_time == old(self).next_time,
    {
        let ghost s0 = store_view(self.nodes@);
        let mut p: usize = 0;
        while p < self.nodes.len() && self.nodes[p].0 != id
            invariant
                p <= self.nodes@.len(),
                forall|j: int| 0 <= j < p ==> self.nodes@[j].0 != id,
            decreases self.nodes.len() - p,
        {
            p = p + 1;
        }
        proof {
            assert forall|j: int| 0 <= j < p implies s0[j].0 != id by {
                assert(s0[j].0 == self.nodes@[j].0);
            }
            if p < self.nodes@.len() {
                assert(s0[p as int].0 == self.nodes@[p as int].0);
            }
            super::types::lemma_pos_of_at(s0, id, p as int);
        }
        if p < self.nodes.len() {
            self.nodes.set(p, (id, node));
            proof {
                assert(store_view(self.nodes@) =~= s0.update(p as int, (id, node.nv())));
            }
        } else {
            self.nodes.push((id, node));
            proof {
                assert(store_view(self.nodes@) =~= s0.push((id, node.nv())));
            }
        }
    }

    /// Puts the nodes for `v` (see `boot`) and returns the identifier of its
    /// node.
    #[verifier::loop_isolation(false)]
    fn build(&mut self, v: &JsonValue) -> (res: Timestamp)
        ensures
            (store_view(final(self).nodes@), res, final(self).next_time) == boot(store_view(old(self).nodes@), v.jv(), old(self).sid, old(self).next_time),
            final(self).sid == old(self).sid,
        decreases v,
    {
        let id = Timestamp { sid: self.sid, time: self.next_time };
        self.next_time = self.next_time.saturating_add(1);
        match v {
            JsonValue::String(t) => {
                let chars = str_chars(t.as_str());
                let base = self.next_time;
                let mut atoms: Vec<StrAtom> = Vec::new();
                let mut i: usize = 0;
                while i < chars.len()
                    invariant
                        i <= chars@.len(),
                        str_atoms_view(atoms@) =~= boot_slots(self.sid, base, chars@.take(i as int)),
                    decreases chars.len() - i,
                {
                    let time = base.wrapping_add(i as u64);
                    let ghost a0 = str_atoms_view(atoms@);
                    atoms.push(StrAtom { slot: Timestamp { sid: self.sid, time }, ch: Some(chars[i]) });
                    proof {
                        assert(chars@.take(i + 1) =~= chars@.take(i as int).push(chars@[i as int]));
                        assert(boot_slots(self.sid, base, chars@.take(i + 1)) =~= boot_slots(self.sid, base, chars@.take(i as int)).push((chunk_slot(Timestamp { sid: self.sid, time: base }, i as int), Some(chars@[i as int]))));
                        assert(str_atoms_view(atoms@) =~= a0.push((chunk_slot(Timestamp { sid: self.sid, time: base }, i as int), Some(chars@[i as int]))));
                    }
                    i = i + 1;
                }
                proof {
                    assert(chars@.take(chars@.len() as int) =~= chars@);
                }
                self.next_time = self.next_time.saturating_add(chars.len() as u64);
                self.put(id, RuntimeNode::Str(atoms));
                id
            },
            JsonValue::Array(items) => {
                let ghost s0 = store_view(self.nodes@);
                let ghost n1 = self.next_time;
                let ghost iv = items_jv(items@);
                let mut ids: Vec<Timestamp> = Vec::new();
                let mut i: usize = 0;
                assert(iv.take(0) =~= Seq::<JsonView>::empty());
                while i < items.len()
                    invariant
                        i <= items@.len(),
                        *v == JsonValue::Array(*items),
                        iv == items_jv(items@),
                        self.sid == old(self).sid,
                        boot_items(s0, iv.take(i as int), self.sid, n1) == (store_view(self.nodes@), ids@, self.next_time),
                    decreases items.len() - i,
                {
                    proof {
                        vstd::std_specs::vec::axiom_vec_index_decreases(*items, i as int);
                        assert(decreases_to!(*v => items@[i as int]));
                        assert(iv.take(i + 1).drop_last() =~= iv.take(i as int));
                        assert(iv.take(i + 1).last() == items@[i as int].jv());
                    }
                    let c = self.build(&items[i]);
                    ids.push(c);
                    i = i + 1;
                }
                proof {
                    assert(iv.take(items@.len() as int) =~= iv);
                    assert(v.jv()->Array_0 =~= iv);
                }
                let mut atoms: Vec<ArrAtom> = Vec::new();
                if ids.len() > 0 {
                    let base = self.next_time;
                    let mut k: usize = 0;
                    while k < ids.len()
                        invariant
                            k <= ids@.len(),
                            arr_atoms_view(atoms@) =~= boot_slots(self.sid, base, ids@.take(k as int)),
                        decreases ids.len() - k,
                    {
                        let time = base.wrapping_add(k as u64);
                        let ghost a0 = arr_atoms_view(atoms@);
                        atoms.push(ArrAtom { slot: Timestamp { sid: self.sid, time }, value: Some(ids[k]) });
                        proof {
                            assert(ids@.take(k + 1) =~= ids@.take(k as int).push(ids@[k as int]));
                            assert(boot_slots(self.sid, base, ids@.take(k + 1)) =~= boot_slots(self.sid, base, ids@.take(k as int)).push((chunk_slot(Timestamp { sid: self.sid, time: base }, k as int), Some(ids@[k as int]))));
                            assert(arr_atoms_view(atoms@) =~= a0.push((chunk_slot(Timestamp { sid: self.sid, time: base }, k as int), Some(ids@[k as int]))));
                        }
                        k = k + 1;
                    }
                    proof {
                        assert(ids@.take(ids@.len() as int) =~= ids@);
                    }
                    self.next_time = self.next_time.saturating_add(ids.len() as u64);
                } else {
                    assert(arr_atoms_view(atoms@) =~= Seq::<(Timestamp, Option<Timestamp>)>::empty());
                }
                self.put(id, RuntimeNode::Arr(atoms));
                id
            },
            JsonValue::Object(es) => {
                let ghost s0 = store_view(self.nodes@);
                let ghost n1 = self.next_time;
                let ghost ev = crate::model_runtime::view::entries_jv(es@);
                let mut kids: Vec<(String, Timestamp)> = Vec::new();
                let mut i: usize = 0;
                assert(ev.take(0) =~= Seq::<(Seq<char>, JsonView)>::empty());
                assert(obj_entries_view(kids@) =~= Seq::<(Seq<char>, Timestamp)>::empty());
                while i < es.len()
                    invariant
                        i <= es@.len(),
                        *v == JsonValue::Object(*es),
                        ev == crate::model_runtime::view::entries_jv(es@),
                        self.sid == old(self).sid,
                        boot_entries(s0, ev.take(i as int), self.sid, n1) == (store_view(self.nodes@), obj_entries_view(kids@), self.next_time),
                    decreases es.len() - i,
                {
                    proof {
                        vstd::std_specs::vec::axiom_vec_index_decreases(*es, i as int);
                        assert(decreases_to!(es@[i as int] => es@[i as int].1));
                        assert(decreases_to!(*v => es@[i as int].1));
                        assert(ev.take(i + 1).drop_last() =~= ev.take(i as int));
                        assert(ev.take(i + 1).last() == (es@[i as int].0@, es@[i as int].1.jv()));
                    }
                    let c = self.build(&es[i].1);
                    let key = es[i].0.clone();
                    let ghost k0 = obj_entries_view(kids@);
                    let ghost kv = key@;
                    kids.push((key, c));
                    proof {
                        assert(obj_entries_view(kids@) =~= k0.push((kv, c)));
                    }
                    i = i + 1;
                }
                proof {
                    assert(ev.take(es@.len() as int) =~= ev);
                    assert(v.jv()->Object_0 =~= ev);
                }
                self.put(id, RuntimeNode::Obj(kids));
                id
            },
            _ => {
                let c = v.deep_clone();
                self.put(id, RuntimeNode::Con(ConCell::Json(c)));
                id
            },
        }
    }
}

/// The graph for a JSON view (see `boot`): the nodes, the root, and a clock
/// table with session `sid` at the last time used.
pub fn bootstrap_graph_from_view(view: &JsonValue, sid: u64) -> (res: (Vec<(Timestamp, RuntimeNode)>, Option<Timestamp>, Vec<crate::crdt_binary::LogicalClockBase>))
    ensures
        ({
            let (s, root, next) = boot(Seq::empty(), view.jv(), sid, 1);
            &&& store_view(res.0@) == s
            &&& res.1 == Some(root)
            &&& res.2@ == seq![crate::crdt_binary::LogicalClockBase { sid, time: if next == 0 { 0 } else { (next - 1) as u64 } }]
        }),
{
    let mut b = Bootstrap { sid, next_time: 1, nodes: Vec::new() };
    proof {
        assert(store_view(b.nodes@) =~= Seq::<(Timestamp, NodeV)>::empty());
    }
    let root = b.build(view);
    let mut table: Vec<crate::crdt_binary::LogicalClockBase> = Vec::new();
    table.push(crate::crdt_binary::LogicalClockBase { sid, time: b.next_time.saturating_sub(1) });
    proof {
        assert(table@ =~= seq![crate::crdt_binary::LogicalClockBase { sid, time: if b.next_time == 0 { 0 } else { (b.next_time - 1) as u64 } }]);
    }
    (b.nodes, Some(root), table)
}
} // verus!
