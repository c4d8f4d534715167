//! The JSON view of the runtime graph.
//!
//! A register shows its value (null when it has none), an object its keys
//! whose values show something, a vector its slots up to the greatest index
//! (null where a slot shows nothing), a string and an array their live
//! slots, a binary node an object from decimal positions to byte values, and
//! a constant its JSON value or, for a reference, `{"sid": .., "time": ..}`.
//! An absent node or an undefined constant shows nothing.
//!
//! The view descends the graph; the number of nodes it passes through is
//! bounded by a fuel, so that a cycle shows up as a view that never
//! completes.

use vstd::prelude::*;
use crate::json::{JsonNumber, JsonValue, JsonView, object_insert, entry_keys};
use crate::patch::Timestamp;
use crate::text::{decimal, push_decimal, chars_to_string};
use super::RuntimeModel;
use super::types::{
    ConCell, ConCellV, RuntimeNode, NodeV, StrAtom, store_view, has_node, node_at,
    obj_entries_view, str_atoms_view, bin_atoms_view, arr_atoms_view,
};

verus! {

/// The JSON form of a timestamp.
pub open spec fn ts_view(t: Timestamp) -> JsonView {
    JsonView::Object(seq![
        (seq!['s', 'i', 'd'], JsonView::Number(JsonNumber::PosInt(t.sid))),
        (seq!['t', 'i', 'm', 'e'], JsonView::Number(JsonNumber::PosInt(t.time))),
    ])
}

/// The characters still present, in order.
pub open spec fn visible_chars(atoms: Seq<(Timestamp, Option<char>)>) -> Seq<char>
    decreases atoms.len(),
{
    if atoms.len() == 0 {
        Seq::empty()
    } else {
        let rest = visible_chars(atoms.drop_last());
        match atoms.last().1 {
            Some(c) => rest.push(c),
            None => rest,
        }
    }
}

/// The bytes still present, in order.
pub open spec fn visible_bytes(atoms: Seq<(Timestamp, Option<u8>)>) -> Seq<u8>
    decreases atoms.len(),
{
    if atoms.len() == 0 {
        Seq::empty()
    } else {
        let rest = visible_bytes(atoms.drop_last());
        match atoms.last().1 {
            Some(b) => rest.push(b),
            None => rest,
        }
    }
}

/// The object from decimal positions to byte values.
pub open spec fn bytes_object(bs: Seq<u8>) -> Seq<(Seq<char>, JsonView)> {
    Seq::new(bs.len(), |i: int| (decimal(i as nat), JsonView::Number(JsonNumber::PosInt(bs[i] as u64))))
}

/// Sets `k` to `v` among object entries: in place when the key is there,
/// else appended.
pub open spec fn entry_set(es: Seq<(Seq<char>, JsonView)>, k: Seq<char>, v: JsonView) -> Seq<(Seq<char>, JsonView)> {
    if exists|i: int| 0 <= i < es.len() && es[i].0 == k {
        let i = choose|i: int| 0 <= i < es.len() && es[i].0 == k && forall|j: int| 0 <= j < i ==> es[j].0 != k;
        es.update(i, (k, v))
    } else {
        es.push((k, v))
    }
}

/// The greatest index of the vector entries (0 when there is none).
pub open spec fn max_index(es: Seq<(u64, Timestamp)>) -> u64
    decreases es.len(),
{
    if es.len() == 0 {
        0
    } else {
        let m = max_index(es.drop_last());
        if es.last().0 > m {
            es.last().0
        } else {
            m
        }
    }
}

/// The view of node `id` passing through at most `fuel` nodes: `None` when
/// the fuel runs out, else what the node shows (`Some(None)` for nothing).
pub open spec fn node_json(s: Seq<(Timestamp, NodeV)>, id: Timestamp, fuel: nat) -> Option<Option<JsonView>>
    decreases fuel, 0nat,
{
    if !has_node(s, id) {
        Some(None)
    } else if fuel == 0 {
        None
    } else {
        match node_at(s, id) {
            NodeV::Con(ConCellV::Json(v)) => Some(Some(v)),
            NodeV::Con(ConCellV::Ref(t)) => Some(Some(ts_view(t))),
            NodeV::Con(ConCellV::Undef) => Some(None),
            NodeV::Val(c) => match node_json(s, c, (fuel - 1) as nat) {
                None => None,
                Some(None) => Some(Some(JsonView::Null)),
                Some(Some(v)) => Some(Some(v)),
            },
            NodeV::Obj(es) => match obj_json(s, es, (fuel - 1) as nat) {
                None => None,
                Some(entries) => Some(Some(JsonView::Object(entries))),
            },
            NodeV::Vec(es) => if max_index(es) >= usize::MAX {
                None
            } else {
                match vec_json(s, es, (fuel - 1) as nat, (max_index(es) + 1) as nat) {
                    None => None,
                    Some(items) => Some(Some(JsonView::Array(items))),
                }
            },
            NodeV::Str(atoms) => Some(Some(JsonView::String(visible_chars(atoms)))),
            NodeV::Bin(atoms) => Some(Some(JsonView::Object(bytes_object(visible_bytes(atoms))))),
            NodeV::Arr(atoms) => match arr_json(s, atoms, (fuel - 1) as nat) {
                None => None,
                Some(items) => Some(Some(JsonView::Array(items))),
            },
        }
    }
}

/// The view of object entries: keys whose value shows something.
pub open spec fn obj_json(s: Seq<(Timestamp, NodeV)>, es: Seq<(Seq<char>, Timestamp)>, fuel: nat) -> Option<Seq<(Seq<char>, JsonView)>>
    decreases fuel, es.len() + 1,
{
    if es.len() == 0 {
        Some(Seq::empty())
    } else {
        match obj_json(s, es.drop_last(), fuel) {
            None => None,
            Some(acc) => match node_json(s, es.last().1, fuel) {
                None => None,
                Some(None) => Some(acc),
                Some(Some(v)) => Some(entry_set(acc, es.last().0, v)),
            },
        }
    }
}

/// The view of vector entries as an array of `len` items.
pub open spec fn vec_json(s: Seq<(Timestamp, NodeV)>, es: Seq<(u64, Timestamp)>, fuel: nat, len: nat) -> Option<Seq<JsonView>>
    decreases fuel, es.len() + 1,
{
    if es.len() == 0 {
        Some(Seq::new(len, |i: int| JsonView::Null))
    } else {
        match vec_json(s, es.drop_last(), fuel, len) {
            None => None,
            Some(acc) => match node_json(s, es.last().1, fuel) {
                None => None,
                Some(None) => Some(acc),
                Some(Some(v)) => Some(acc.update(es.last().0 as int, v)),
            },
        }
    }
}

/// The view of array slots: the live values that show something.
pub open spec fn arr_json(s: Seq<(Timestamp, NodeV)>, atoms: Seq<(Timestamp, Option<Timestamp>)>, fuel: nat) -> Option<Seq<JsonView>>
    decreases fuel, atoms.len() + 1,
{
    if atoms.len() == 0 {
        Some(Seq::empty())
    } else {
        match arr_json(s, atoms.drop_last(), fuel) {
            None => None,
            Some(acc) => match atoms.last().1 {
                None => Some(acc),
                Some(vid) => match node_json(s, vid, fuel) {
                    None => None,
                    Some(None) => Some(acc),
                    Some(Some(v)) => Some(acc.push(v)),
                },
            },
        }
    }
}

/// The view of an optional value.
pub open spec fn opt_jv(v: Option<JsonValue>) -> Option<JsonView> {
    match v {
        Some(x) => Some(x.jv()),
        None => None,
    }
}

/// The view of a possibly unfinished view.
pub open spec fn res_jv(v: Option<Option<JsonValue>>) -> Option<Option<JsonView>> {
    match v {
        Some(x) => Some(opt_jv(x)),
        None => None,
    }
}

/// The content of object entries.
pub open spec fn entries_jv(es: Seq<(String, JsonValue)>) -> Seq<(Seq<char>, JsonView)> {
    Seq::new(es.len(), |i: int| (es[i].0@, es[i].1.jv()))
}

/// `entry_set` is what `object_insert` does.
proof fn lemma_entry_set(old_es: Seq<(String, JsonValue)>, new_es: Seq<(String, JsonValue)>, key: String, value: JsonValue)
    requires
        ({
            let old_keys = entry_keys(old_es);
            if old_keys.contains(key@) {
                exists|i: int|
                    0 <= i < old_es.len() && old_keys[i] == key@ && new_es == old_es.update(i, (old_es[i].0, value))
            } else {
                new_es == old_es.push((key, value))
            }
        }),
        forall|i: int, j: int| 0 <= i < j < old_es.len() ==> old_es[i].0@ != old_es[j].0@,
    ensures
        entries_jv(new_es) == entry_set(entries_jv(old_es), key@, value.jv()),
{
    let ov = entries_jv(old_es);
    let nv = entries_jv(new_es);
    if entry_keys(old_es).contains(key@) {
        let i = choose|i: int|
            0 <= i < old_es.len() && entry_keys(old_es)[i] == key@ && new_es == old_es.update(i, (old_es[i].0, value));
        assert(ov[i].0 == key@);
        let c = choose|c: int| 0 <= c < ov.len() && ov[c].0 == key@ && forall|j: int| 0 <= j < c ==> ov[j].0 != key@;
        assert(c == i) by {
            if c < i {
                assert(old_es[c].0@ == ov[c].0);
                assert(old_es[c].0@ == old_es[i].0@);
            } else if c > i {
                assert(ov[i].0 != key@);
            }
        }
        assert(nv =~= ov.update(i, (key@, value.jv())));
    } else {
        assert(!(exists|i: int| 0 <= i < ov.len() && ov[i].0 == key@)) by {
            if exists|i: int| 0 <= i < ov.len() && ov[i].0 == key@ {
                let i = choose|i: int| 0 <= i < ov.len() && ov[i].0 == key@;
                assert(entry_keys(old_es)[i] == key@);
            }
        }
        assert(nv =~= ov.push((key@, value.jv())));
    }
}

/// The content of a sequence of values.
pub open spec fn items_jv(v: Seq<JsonValue>) -> Seq<JsonView> {
    Seq::new(v.len(), |i: int| v[i].jv())
}

/// A view that stops on a prefix of the entries stops on all of them.
proof fn lemma_obj_json_stuck(s: Seq<(Timestamp, NodeV)>, es: Seq<(Seq<char>, Timestamp)>, fuel: nat, i: int)
    requires
        0 <= i <= es.len(),
        obj_json(s, es.take(i), fuel) is None,
    ensures
        obj_json(s, es, fuel) is None,
    decreases es.len() - i,
{
    if i < es.len() {
        assert(es.take(i + 1).drop_last() =~= es.take(i));
        lemma_obj_json_stuck(s, es, fuel, i + 1);
    } else {
        assert(es.take(i) =~= es);
    }
}

proof fn lemma_vec_json_stuck(s: Seq<(Timestamp, NodeV)>, es: Seq<(u64, Timestamp)>, fuel: nat, len: nat, i: int)
    requires
        0 <= i <= es.len(),
        vec_json(s, es.take(i), fuel, len) is None,
    ensures
        vec_json(s, es, fuel, len) is None,
    decreases es.len() - i,
{
    if i < es.len() {
        assert(es.take(i + 1).drop_last() =~= es.take(i));
        lemma_vec_json_stuck(s, es, fuel, len, i + 1);
    } else {
        assert(es.take(i) =~= es);
    }
}

proof fn lemma_arr_json_stuck(s: Seq<(Timestamp, NodeV)>, atoms: Seq<(Timestamp, Option<Timestamp>)>, fuel: nat, i: int)
    requires
        0 <= i <= atoms.len(),
        arr_json(s, atoms.take(i), fuel) is None,
    ensures
        arr_json(s, atoms, fuel) is None,
    decreases atoms.len() - i,
{
    if i < atoms.len() {
        assert(atoms.take(i + 1).drop_last() =~= atoms.take(i));
        lemma_arr_json_stuck(s, atoms, fuel, i + 1);
    } else {
        assert(atoms.take(i) =~= atoms);
    }
}

/// Every entry's index is at most the greatest one.
proof fn lemma_max_index(es: Seq<(u64, Timestamp)>)
    ensures
        forall|j: int| 0 <= j < es.len() ==> #[trigger] es[j].0 <= max_index(es),
    decreases es.len(),
{
    if es.len() > 0 {
        lemma_max_index(es.drop_last());
        assert forall|j: int| 0 <= j < es.len() implies #[trigger] es[j].0 <= max_index(es) by {
            if j < es.len() - 1 {
                assert(es[j] == es.drop_last()[j]);
            }
        }
    }
}

/// The JSON form of a timestamp.
fn ts_value(t: Timestamp) -> (res: JsonValue)
    ensures
        res.jv() == ts_view(t),
{
    let sid_key = "sid".to_owned();
    let time_key = "time".to_owned();
    proof {
        reveal_strlit("sid");
        reveal_strlit("time");
    }
    let mut entries: Vec<(String, JsonValue)> = Vec::new();
    entries.push((sid_key, JsonValue::Number(JsonNumber::PosInt(t.sid))));
    entries.push((time_key, JsonValue::Number(JsonNumber::PosInt(t.time))));
    let res = JsonValue::Object(entries);
    proof {
        assert(entries@[0].0@ == seq!['s', 'i', 'd']);
        assert(entries@[1].0@ == seq!['t', 'i', 'm', 'e']);
        assert(entries@[0].1.jv() == JsonView::Number(JsonNumber::PosInt(t.sid)));
        assert(entries@[1].1.jv() == JsonView::Number(JsonNumber::PosInt(t.time)));
        assert(entries@.len() == 2);
        let a = res.jv()->Object_0;
        assert(a.len() == 2);
        assert(a[0] == (seq!['s', 'i', 'd'], JsonView::Number(JsonNumber::PosInt(t.sid))));
        assert(a[1] == (seq!['t', 'i', 'm', 'e'], JsonView::Number(JsonNumber::PosInt(t.time))));
        assert(a =~= ts_view(t)->Object_0);
    }
    res
}

/// The characters still present in a string node, as text.
pub(super) fn live_text(atoms: &Vec<StrAtom>) -> (res: String)
    ensures
        res@ == visible_chars(str_atoms_view(atoms@)),
{
    let ghost av = str_atoms_view(atoms@);
    let mut chars: Vec<char> = Vec::new();
    let mut i: usize = 0;
    assert(av.take(0) =~= Seq::<(Timestamp, Option<char>)>::empty());
    while i < atoms.len()
        invariant
            i <= atoms@.len(),
            av == str_atoms_view(atoms@),
            chars@ == visible_chars(av.take(i as int)),
        decreases atoms.len() - i,
    {
        proof {
            assert(av.take(i + 1).drop_last() =~= av.take(i as int));
            assert(av.take(i + 1).last() == (atoms@[i as int].slot, atoms@[i as int].ch));
        }
        if let Some(c) = atoms[i].ch {
            chars.push(c);
        }
        i = i + 1;
    }
    proof {
        assert(av.take(atoms@.len() as int) =~= av);
    }
    chars_to_string(chars.as_slice())
}

impl RuntimeModel {
    /// The view of node `id` within `fuel` levels (`None` when the fuel runs
    /// out).
    pub(super) fn view_rec(&self, id: Timestamp, fuel: usize) -> (res: Option<Option<JsonValue>>)
        ensures
            res_jv(res) == node_json(store_view(self.nodes@), id, fuel as nat),
        decreases fuel,
    {
        let ghost s = store_view(self.nodes@);
        let mut p: usize = 0;
        while p < self.nodes.len() && self.nodes[p].0 != id
            invariant
                p <= self.nodes@.len(),
                forall|j: int| 0 <= j < p ==> self.nodes@[j].0 != id,
            decreases self.nodes.len() - p,
        {
            p = p + 1;
        }
        proof {
            assert forall|j: int| 0 <= j < p implies s[j].0 != id by {
                assert(s[j].0 == self.nodes@[j].0);
            }
            if p < self.nodes@.len() {
                assert(s[p as int].0 == self.nodes@[p as int].0);
            }
            super::types::lemma_pos_of_at(s, id, p as int);
        }
        if p >= self.nodes.len() {
            return Some(None);
        }
        if fuel == 0 {
            return None;
        }
        proof {
            assert(node_at(s, id) == self.nodes@[p as int].1.nv());
        }
        let f = fuel - 1;
        match &self.nodes[p].1 {
            RuntimeNode::Con(ConCell::Json(v)) => Some(Some(v.deep_clone())),
            RuntimeNode::Con(ConCell::Ref(t)) => Some(Some(ts_value(*t))),
            RuntimeNode::Con(ConCell::Undef) => Some(None),
            RuntimeNode::Val(c) => match self.view_rec(*c, f) {
                None => None,
                Some(None) => Some(Some(JsonValue::Null)),
                Some(Some(v)) => Some(Some(v)),
            },
            RuntimeNode::Obj(es) => {
                let ghost ev = obj_entries_view(es@);
                let mut out: Vec<(String, JsonValue)> = Vec::new();
                let mut i: usize = 0;
                assert(ev.take(0) =~= Seq::<(Seq<char>, Timestamp)>::empty());
                assert(entries_jv(out@) =~= Seq::<(Seq<char>, JsonView)>::empty());
                while i < es.len()
                    invariant
                        i <= es@.len(),
                        ev == obj_entries_view(es@),
                        s == store_view(self.nodes@),
                        fuel > 0,
                        has_node(s, id),
                        node_at(s, id) == NodeV::Obj(ev),
                        f as int == fuel - 1,
                        obj_json(s, ev.take(i as int), f as nat) == Some(entries_jv(out@)),
                        forall|a: int, b: int| 0 <= a < b < out@.len() ==> out@[a].0@ != out@[b].0@,
                    decreases es.len() - i,
                {
                    proof {
                        assert(ev.take(i + 1).drop_last() =~= ev.take(i as int));
                        assert(ev.take(i + 1).last() == (es@[i as int].0@, es@[i as int].1));
                    }
                    match self.view_rec(es[i].1, f) {
                        None => {
                            proof {
                                lemma_obj_json_stuck(s, ev, f as nat, i + 1);
                            }
                            return None;
                        },
                        Some(None) => {},
                        Some(Some(v)) => {
                            let key = es[i].0.clone();
                            let ghost o0 = out@;
                            let ghost key_v = key@;
                            object_insert(&mut out, key, v);
                            proof {
                                lemma_entry_set(o0, out@, key, v);
                                assert forall|a: int, b: int| 0 <= a < b < out@.len() implies out@[a].0@ != out@[b].0@ by {
                                    if entry_keys(o0).contains(key_v) {
                                        let q = choose|q: int| 0 <= q < o0.len() && entry_keys(o0)[q] == key_v && out@ == o0.update(q, (o0[q].0, v));
                                        assert(out@[a].0 == o0[a].0 && out@[b].0 == o0[b].0);
                                    } else {
                                        if b == o0.len() {
                                            assert(entry_keys(o0)[a] == o0[a].0@);
                                        } else {
                                            assert(out@[a] == o0[a] && out@[b] == o0[b]);
                                        }
                                    }
                                }
                            }
                        },
                    }
                    i = i + 1;
                }
                proof {
                    assert(ev.take(es@.len() as int) =~= ev);
                }
                let res = JsonValue::Object(out);
                proof {
                    assert(res.jv()->Object_0 =~= entries_jv(out@));
                }
                Some(Some(res))
            },
            RuntimeNode::Vec(es) => {
                let mut max: u64 = 0;
                let mut i: usize = 0;
                assert(es@.take(0) =~= Seq::<(u64, Timestamp)>::empty());
                while i < es.len()
                    invariant
                        i <= es@.len(),
                        max == max_index(es@.take(i as int)),
                    decreases es.len() - i,
                {
                    proof {
                        assert(es@.take(i + 1).drop_last() =~= es@.take(i as int));
                    }
                    if es[i].0 > max {
                        max = es[i].0;
                    }
                    i = i + 1;
                }
                proof {
                    assert(es@.take(es@.len() as int) =~= es@);
                    lemma_max_index(es@);
                }
                if max >= usize::MAX as u64 {
                    return None;
                }
                let len: usize = max as usize + 1;
                let mut out: Vec<JsonValue> = Vec::new();
                let mut k: usize = 0;
                while k < len
                    invariant
                        k <= len,
                        out@.len() == k,
                        forall|q: int| 0 <= q < k ==> #[trigger] out@[q].jv() == JsonView::Null,
                    decreases len - k,
                {
                    out.push(JsonValue::Null);
                    k = k + 1;
                }
                assert(items_jv(out@) =~= Seq::new(len as nat, |q: int| JsonView::Null));
                let mut i: usize = 0;
                while i < es.len()
                    invariant
                        i <= es@.len(),
                        s == store_view(self.nodes@),
                        f as int == fuel - 1,
                        has_node(s, id),
                        node_at(s, id) == NodeV::Vec(es@),
                        max_index(es@) < usize::MAX,
                        len == max_index(es@) + 1,
                        out@.len() == len,
                        forall|j: int| 0 <= j < es@.len() ==> #[trigger] es@[j].0 <= max_index(es@),
                        vec_json(s, es@.take(i as int), f as nat, len as nat) == Some(items_jv(out@)),
                    decreases es.len() - i,
                {
                    proof {
                        assert(es@.take(i + 1).drop_last() =~= es@.take(i as int));
                        assert(es@.take(i + 1).last() == es@[i as int]);
                    }
                    let idx = es[i].0;
                    match self.view_rec(es[i].1, f) {
                        None => {
                            proof {
                                lemma_vec_json_stuck(s, es@, f as nat, len as nat, i + 1);
                            }
                            return None;
                        },
                        Some(None) => {},
                        Some(Some(v)) => {
                            let ghost o0 = out@;
                            out.set(idx as usize, v);
                            proof {
                                assert(items_jv(out@) =~= items_jv(o0).update(idx as int, v.jv()));
                            }
                        },
                    }
                    i = i + 1;
                }
                proof {
                    assert(es@.take(es@.len() as int) =~= es@);
                }
                let res = JsonValue::Array(out);
                proof {
                    assert(res.jv()->Array_0 =~= items_jv(out@));
                }
                Some(Some(res))
            },
            RuntimeNode::Str(atoms) => {
                let text = live_text(atoms);
                Some(Some(JsonValue::String(text)))
            },
            RuntimeNode::Bin(atoms) => {
                let ghost av = bin_atoms_view(atoms@);
                let mut out: Vec<(String, JsonValue)> = Vec::new();
                let mut n: u64 = 0;
                let mut i: usize = 0;
                assert(av.take(0) =~= Seq::<(Timestamp, Option<u8>)>::empty());
                assert(entries_jv(out@) =~= bytes_object(Seq::<u8>::empty()));
                while i < atoms.len()
                    invariant
                        i <= atoms@.len(),
                        av == bin_atoms_view(atoms@),
                        n as int == visible_bytes(av.take(i as int)).len(),
                        n <= i,
                        out@.len() == n,
                        entries_jv(out@) == bytes_object(visible_bytes(av.take(i as int))),
                    decreases atoms.len() - i,
                {
                    proof {
                        assert(av.take(i + 1).drop_last() =~= av.take(i as int));
                        assert(av.take(i + 1).last() == (atoms@[i as int].slot, atoms@[i as int].byte));
                    }
                    if let Some(b) = atoms[i].byte {
                        let mut key = String::new();
                        push_decimal(&mut key, n);
                        let ghost o0 = out@;
                        let ghost vb = visible_bytes(av.take(i as int));
                        out.push((key, JsonValue::Number(JsonNumber::PosInt(b as u64))));
                        n = n + 1;
                        proof {
                            assert(key@ =~= decimal(o0.len() as nat));
                            let eo = entries_jv(out@);
                            let bo = bytes_object(vb.push(b));
                            assert(eo.len() == bo.len());
                            assert forall|j: int| 0 <= j < eo.len() implies eo[j] == bo[j] by {
                                if j < o0.len() {
                                    assert(out@[j] == o0[j]);
                                    assert(entries_jv(o0)[j] == bytes_object(vb)[j]);
                                    assert(vb.push(b)[j] == vb[j]);
                                } else {
                                    assert(out@[j].0@ == decimal(j as nat));
                                }
                            }
                            assert(eo =~= bo);
                        }
                    }
                    i = i + 1;
                }
                proof {
                    assert(av.take(atoms@.len() as int) =~= av);
                }
                let res = JsonValue::Object(out);
                proof {
                    assert(res.jv()->Object_0 =~= entries_jv(out@));
                }
                Some(Some(res))
            },
            RuntimeNode::Arr(atoms) => {
                let ghost av = arr_atoms_view(atoms@);
                let mut out: Vec<JsonValue> = Vec::new();
                let mut i: usize = 0;
                assert(av.take(0) =~= Seq::<(Timestamp, Option<Timestamp>)>::empty());
                assert(items_jv(out@) =~= Seq::<JsonView>::empty());
                while i < atoms.len()
                    invariant
                        i <= atoms@.len(),
                        av == arr_atoms_view(atoms@),
                        s == store_view(self.nodes@),
                        has_node(s, id),
                        node_at(s, id) == NodeV::Arr(av),
                        f as int == fuel - 1,
                        arr_json(s, av.take(i as int), f as nat) == Some(items_jv(out@)),
                    decreases atoms.len() - i,
                {
                    proof {
                        assert(av.take(i + 1).drop_last() =~= av.take(i as int));
                        assert(av.take(i + 1).last() == (atoms@[i as int].slot, atoms@[i as int].value));
                    }
                    if let Some(vid) = atoms[i].value {
                        match self.view_rec(vid, f) {
                            None => {
                                proof {
                                    lemma_arr_json_stuck(s, av, f as nat, i + 1);
                                }
                                return None;
                            },
                            Some(None) => {},
                            Some(Some(v)) => {
                                let ghost o0 = out@;
                                out.push(v);
                                proof {
                                    assert(items_jv(out@) =~= items_jv(o0).push(v.jv()));
                                }
                            },
                        }
                    }
                    i = i + 1;
                }
                proof {
                    assert(av.take(atoms@.len() as int) =~= av);
                }
                let res = JsonValue::Array(out);
                proof {
                    assert(res.jv()->Array_0 =~= items_jv(out@));
                }
                Some(Some(res))
            },
        }
    }
}


/// Law (array views): the view of slots laid end to end is the view of the
/// first ones followed by the view of the others: live values show in slot
/// order.
pub proof fn lemma_arr_view_concat(
    s: Seq<(Timestamp, NodeV)>,
    a1: Seq<(Timestamp, Option<Timestamp>)>,
    a2: Seq<(Timestamp, Option<Timestamp>)>,
    fuel: nat,
)
    ensures
        arr_json(s, a1 + a2, fuel) == match (arr_json(s, a1, fuel), arr_json(s, a2, fuel)) {
            (Some(x), Some(y)) => Some(x + y),
            _ => None::<Seq<JsonView>>,
        },
    decreases a2.len(),
{
    if a2.len() == 0 {
        assert(a1 + a2 =~= a1);
        if let Some(x) = arr_json(s, a1, fuel) {
            assert(x + Seq::<JsonView>::empty() =~= x);
        }
    } else {
        lemma_arr_view_concat(s, a1, a2.drop_last(), fuel);
        assert((a1 + a2).drop_last() =~= a1 + a2.drop_last());
        assert((a1 + a2).last() == a2.last());
        if let (Some(x), Some(y0)) = (arr_json(s, a1, fuel), arr_json(s, a2.drop_last(), fuel)) {
            if let Some(vid) = a2.last().1 {
                if let Some(Some(v)) = node_json(s, vid, fuel) {
                    assert(x + y0.push(v) =~= (x + y0).push(v));
                }
            }
        }
    }
}

/// Law (array views): a single slot shows the view of its value when it is
/// live and its value shows something, and nothing otherwise.
pub proof fn lemma_arr_view_one(s: Seq<(Timestamp, NodeV)>, slot: Timestamp, v: Option<Timestamp>, fuel: nat)
    ensures
        arr_json(s, seq![(slot, v)], fuel) == match v {
            None => Some(Seq::<JsonView>::empty()),
            Some(vid) => match node_json(s, vid, fuel) {
                None => None,
                Some(None) => Some(Seq::<JsonView>::empty()),
                Some(Some(j)) => Some(seq![j]),
            },
        },
{
    let a = seq![(slot, v)];
    let e = Seq::<(Timestamp, Option<Timestamp>)>::empty();
    assert(a.drop_last() =~= e);
    assert(arr_json(s, e, fuel) == Some(Seq::<JsonView>::empty()));
    assert(a.last() == (slot, v));
    if let Some(vid) = v {
        if let Some(Some(j)) = node_json(s, vid, fuel) {
            assert(Seq::<JsonView>::empty().push(j) =~= seq![j]);
        }
    }
}

} // verus!
