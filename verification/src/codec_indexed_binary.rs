//! The indexed form of a model: one field per node, named by the node's
//! session index and time in base 36, whose payload writes identifiers by
//! their index in the clock table; a field `c` holds the clock table and a
//! field `r` the root.

use vstd::prelude::*;
use crate::cbor_enc::{be_bytes, cbor_text_bytes, cbor_uint_bytes, json_cbor_bytes, push_be, write_cbor_json, write_cbor_text, write_cbor_uint};
use crate::crdt_binary::{b1vu56_bytes, vu57_bytes, write_b1vu56, write_vu57, LogicalClockBase};
use crate::model::ModelError;
use crate::model_runtime::encode::{
    arr_keys, bin_keys, chunk_bounds, chunk_bytes, chunk_text, chunks_of, entries_max, id_code, keys_of,
    lemma_chunks_in, somes, str_keys, vec_get, vec_lookup,
};
use crate::model_runtime::types::{
    arr_atoms_view, bin_atoms_view, obj_entries_view, str_atoms_view, ConCell, ConCellV, NodeV, RuntimeNode,
};
use crate::model_runtime::view::max_index;
use crate::model_runtime::RuntimeModel;
use crate::model_runtime::encode::table_bytes;
use crate::model::view_result_ok;
use crate::json::JsonValue;
use crate::patch::Timestamp;

pub mod decode;

verus! {

/// Failures of the indexed codec.
#[derive(Debug, Clone, Copy, PartialEq, Eq, Structural)]
pub enum IndexedBinaryCodecError {
    InvalidFields,
    InvalidNode,
    Model(ModelError),
}

// ---------------------------------------------------------------------------
// Identifiers
// ---------------------------------------------------------------------------

/// `i` is the last entry of the clock table for session `sid`.
pub open spec fn last_sid(ct: Seq<LogicalClockBase>, sid: u64, i: int) -> bool {
    &&& 0 <= i < ct.len()
    &&& ct[i].sid == sid
    &&& forall|k: int| i < k < ct.len() ==> (#[trigger] ct[k]).sid != sid
}

/// An identifier as its session's (last) index in the clock table and its
/// time, when the table has the session.
pub open spec fn iid(ct: Seq<LogicalClockBase>, id: Timestamp) -> Option<Seq<u8>> {
    if exists|i: int| last_sid(ct, id.sid, i) {
        let i = choose|i: int| last_sid(ct, id.sid, i);
        Some(id_code(i as u64, id.time))
    } else {
        None
    }
}

/// The bytes, when there are, after `w`.
pub open spec fn then(w: Seq<u8>, r: Option<Seq<u8>>) -> Option<Seq<u8>> {
    match r {
        Some(x) => Some(w + x),
        None => None,
    }
}

/// Writes an identifier by its session's index in the clock table.
fn write_iid(out: &mut Vec<u8>, ct: &Vec<LogicalClockBase>, id: Timestamp) -> (res: bool)
    ensures
        res == (iid(ct@, id) is Some),
        res ==> final(out)@ == old(out)@ + iid(ct@, id)->0,
        !res ==> final(out)@ == old(out)@,
{
    let mut found: Option<usize> = None;
    let mut i: usize = 0;
    while i < ct.len()
        invariant
            i <= ct@.len(),
            found matches Some(f) ==> f < i && ct@[f as int].sid == id.sid && forall|k: int|
                f < k < i ==> (#[trigger] ct@[k]).sid != id.sid,
            found is None ==> forall|k: int| 0 <= k < i ==> (#[trigger] ct@[k]).sid != id.sid,
        decreases ct.len() - i,
    {
        if ct[i].sid == id.sid {
            found = Some(i);
        }
        i = i + 1;
    }
    match found {
        Some(x) => {
            proof {
                assert(last_sid(ct@, id.sid, x as int));
                let c = choose|c: int| last_sid(ct@, id.sid, c);
                if c < x {
                    assert(ct@[x as int].sid != id.sid);
                }
                if c > x {
                    assert(ct@[c].sid != id.sid);
                }
            }
            let xi = x as u64;
            let y = id.time;
            if xi <= 7 && y <= 15 {
                out.push((xi * 16 + y) as u8);
                assert(out@ =~= old(out)@ + id_code(xi, y));
            } else {
                write_b1vu56(out, 1, xi);
                write_vu57(out, y);
                assert(out@ =~= old(out)@ + id_code(xi, y));
            }
            true
        },
        None => {
            proof {
                if exists|c: int| last_sid(ct@, id.sid, c) {
                    let c = choose|c: int| last_sid(ct@, id.sid, c);
                    assert(ct@[c].sid != id.sid);
                }
            }
            false
        },
    }
}

// ---------------------------------------------------------------------------
// Node payloads
// ---------------------------------------------------------------------------

/// A head of major type `major` with length `len`: the shortest of the
/// inline, one, two and four byte forms (a longer length cut to 32 bits).
pub open spec fn itype_len(major: u8, len: u64) -> Seq<u8> {
    let m = (major * 32) as int;
    if len < 24 {
        seq![(m + len) as u8]
    } else if len <= 0xff {
        seq![(m + 24) as u8, len as u8]
    } else if len <= 0xffff {
        seq![(m + 25) as u8] + be_bytes(len, 2)
    } else {
        seq![(m + 26) as u8] + be_bytes(len, 4)
    }
}

fn write_itype_len(out: &mut Vec<u8>, major: u8, len: u64)
    requires
        major < 8,
    ensures
        final(out)@ == old(out)@ + itype_len(major, len),
{
    let m = major * 32;
    if len < 24 {
        out.push(m + len as u8);
        assert(out@ =~= old(out)@ + itype_len(major, len));
    } else if len <= 0xff {
        out.push(m + 24);
        out.push(len as u8);
        assert(out@ =~= old(out)@ + itype_len(major, len));
    } else if len <= 0xffff {
        out.push(m + 25);
        push_be(out, len, 2);
        assert(out@ =~= old(out)@ + itype_len(major, len));
    } else {
        out.push(m + 26);
        push_be(out, len, 4);
        assert(out@ =~= old(out)@ + itype_len(major, len));
    }
}

/// Object entries from `i` on: each key, then its child.
pub open spec fn pay_obj(ct: Seq<LogicalClockBase>, es: Seq<(Seq<char>, Timestamp)>, i: nat) -> Option<Seq<u8>>
    decreases es.len() - i,
{
    if i >= es.len() {
        Some(Seq::empty())
    } else {
        match iid(ct, es[i as int].1) {
            Some(b) => then(cbor_text_bytes(es[i as int].0) + b, pay_obj(ct, es, i + 1)),
            None => None,
        }
    }
}

/// Vector elements from `i` up to `len`: a one byte and the child, or a
/// zero byte where there is none.
pub open spec fn pay_vec(ct: Seq<LogicalClockBase>, es: Seq<(u64, Timestamp)>, i: nat, len: nat) -> Option<Seq<u8>>
    decreases len - i,
{
    if i >= len {
        Some(Seq::empty())
    } else {
        match vec_get(es, i as int) {
            Some(t) => match iid(ct, t) {
                Some(b) => then(seq![1u8] + b, pay_vec(ct, es, i + 1, len)),
                None => None,
            },
            None => then(seq![0u8], pay_vec(ct, es, i + 1, len)),
        }
    }
}

/// String chunks from `c` on: each its first slot, then its text or its
/// number of deleted slots.
pub open spec fn pay_str(ct: Seq<LogicalClockBase>, atoms: Seq<(Timestamp, Option<char>)>, b: Seq<(int, int)>, c: nat) -> Option<Seq<u8>>
    decreases b.len() - c,
{
    if c >= b.len() {
        Some(Seq::empty())
    } else {
        let (i, j) = b[c as int];
        match iid(ct, atoms[i].0) {
            Some(x) => then(
                x + if atoms[i].1 is Some {
                    cbor_text_bytes(somes(atoms.subrange(i, j)))
                } else {
                    cbor_uint_bytes(0, (j - i) as u64)
                },
                pay_str(ct, atoms, b, c + 1),
            ),
            None => None,
        }
    }
}

/// Binary chunks from `c` on: each its first slot, then its length flagged
/// as present with its bytes, or as deleted.
pub open spec fn pay_bin(ct: Seq<LogicalClockBase>, atoms: Seq<(Timestamp, Option<u8>)>, b: Seq<(int, int)>, c: nat) -> Option<Seq<u8>>
    decreases b.len() - c,
{
    if c >= b.len() {
        Some(Seq::empty())
    } else {
        let (i, j) = b[c as int];
        match iid(ct, atoms[i].0) {
            Some(x) => then(
                x + if atoms[i].1 is Some {
                    b1vu56_bytes(0, (j - i) as u64) + somes(atoms.subrange(i, j))
                } else {
                    b1vu56_bytes(1, (j - i) as u64)
                },
                pay_bin(ct, atoms, b, c + 1),
            ),
            None => None,
        }
    }
}

/// The identifiers of the elements that array slots `k..j` hold.
pub open spec fn pay_ids(ct: Seq<LogicalClockBase>, atoms: Seq<(Timestamp, Option<Timestamp>)>, k: int, j: int) -> Option<Seq<u8>>
    decreases j - k,
{
    if k >= j {
        Some(Seq::empty())
    } else {
        match atoms[k].1 {
            Some(v) => match iid(ct, v) {
                Some(x) => then(x, pay_ids(ct, atoms, k + 1, j)),
                None => None,
            },
            None => pay_ids(ct, atoms, k + 1, j),
        }
    }
}

/// Array chunks from `c` on: each its first slot, then its length flagged
/// as present with its elements' identifiers, or as deleted.
pub open spec fn pay_arr(ct: Seq<LogicalClockBase>, atoms: Seq<(Timestamp, Option<Timestamp>)>, b: Seq<(int, int)>, c: nat) -> Option<Seq<u8>>
    decreases b.len() - c,
{
    if c >= b.len() {
        Some(Seq::empty())
    } else {
        let (i, j) = b[c as int];
        match iid(ct, atoms[i].0) {
            Some(x) => if atoms[i].1 is Some {
                match pay_ids(ct, atoms, i, j) {
                    Some(ids) => then(x + b1vu56_bytes(0, (j - i) as u64) + ids, pay_arr(ct, atoms, b, c + 1)),
                    None => None,
                }
            } else {
                then(x + b1vu56_bytes(1, (j - i) as u64), pay_arr(ct, atoms, b, c + 1))
            },
            None => None,
        }
    }
}

/// The payload of a node, when every identifier in it has its session in
/// the clock table; a vector whose largest index is the largest `u64` has
/// no length and gives none either.
pub open spec fn node_payload(ct: Seq<LogicalClockBase>, n: NodeV) -> Result<Seq<u8>, IndexedBinaryCodecError> {
    let r = match n {
        NodeV::Con(ConCellV::Json(j)) => Some(itype_len(0, 0) + json_cbor_bytes(j)),
        NodeV::Con(ConCellV::Ref(t)) => then(itype_len(0, 1), iid(ct, t)),
        NodeV::Con(_) => Some(itype_len(0, 0) + seq![0xf7u8]),
        NodeV::Val(c) => then(itype_len(1, 0), iid(ct, c)),
        NodeV::Obj(es) => then(itype_len(2, es.len() as u64), pay_obj(ct, es, 0)),
        NodeV::Vec(es) => if es.len() > 0 && max_index(es) == u64::MAX {
            None
        } else {
            let len: u64 = if es.len() == 0 {
                0
            } else {
                (max_index(es) + 1) as u64
            };
            then(itype_len(3, len), pay_vec(ct, es, 0, len as nat))
        },
        NodeV::Str(atoms) => {
            let b = chunk_bounds(keys_of(atoms), 0);
            then(itype_len(4, b.len() as u64), pay_str(ct, atoms, b, 0))
        },
        NodeV::Bin(atoms) => {
            let b = chunk_bounds(keys_of(atoms), 0);
            then(itype_len(5, b.len() as u64), pay_bin(ct, atoms, b, 0))
        },
        NodeV::Arr(atoms) => {
            let b = chunk_bounds(keys_of(atoms), 0);
            then(itype_len(6, b.len() as u64), pay_arr(ct, atoms, b, 0))
        },
    };
    match r {
        Some(bytes) => Ok(bytes),
        None => if n matches NodeV::Vec(es) && es.len() > 0 && max_index(es) == u64::MAX {
            Err(IndexedBinaryCodecError::InvalidNode)
        } else {
            Err(IndexedBinaryCodecError::InvalidFields)
        },
    }
}

proof fn lemma_then_assoc(w: Seq<u8>, x: Seq<u8>, r: Option<Seq<u8>>)
    ensures
        then(w, then(x, r)) == then(w + x, r),
{
    if let Some(y) = r {
        assert(w + (x + y) =~= w + x + y);
    }
}

/// Writes the payload of a node.
#[verifier::rlimit(60)]
pub fn encode_node_payload(node: &RuntimeNode, ct: &Vec<LogicalClockBase>) -> (res: Result<Vec<u8>, IndexedBinaryCodecError>)
    ensures
        match node_payload(ct@, node.nv()) {
            Ok(b) => res matches Ok(v) && v@ == b,
            Err(e) => res == Err::<Vec<u8>, IndexedBinaryCodecError>(e),
        },
{
    let mut out: Vec<u8> = Vec::new();
    match node {
        RuntimeNode::Con(ConCell::Json(v)) => {
            write_itype_len(&mut out, 0, 0);
            write_cbor_json(&mut out, v);
            Ok(out)
        },
        RuntimeNode::Con(ConCell::Ref(t)) => {
            write_itype_len(&mut out, 0, 1);
            if write_iid(&mut out, ct, *t) {
                Ok(out)
            } else {
                Err(IndexedBinaryCodecError::InvalidFields)
            }
        },
        RuntimeNode::Con(ConCell::Undef) => {
            write_itype_len(&mut out, 0, 0);
            out.push(0xf7);
            Ok(out)
        },
        RuntimeNode::Val(c) => {
            write_itype_len(&mut out, 1, 0);
            if write_iid(&mut out, ct, *c) {
                Ok(out)
            } else {
                Err(IndexedBinaryCodecError::InvalidFields)
            }
        },
        RuntimeNode::Obj(es) => {
            let ghost ev = obj_entries_view(es@);
            write_itype_len(&mut out, 2, es.len() as u64);
            let ghost head = out@;
            let mut i: usize = 0;
            while i < es.len()
                invariant
                    i <= es@.len(),
                    ev == obj_entries_view(es@),
                    node.nv() == NodeV::Obj(ev),
                    head == itype_len(2, ev.len() as u64),
                    then(head, pay_obj(ct@, ev, 0)) == then(out@, pay_obj(ct@, ev, i as nat)),
                decreases es.len() - i,
            {
                let ghost before = out@;
                write_cbor_text(&mut out, es[i].0.as_str());
                let ghost mid = out@;
                if !write_iid(&mut out, ct, es[i].1) {
                    return Err(IndexedBinaryCodecError::InvalidFields);
                }
                proof {
                    lemma_then_assoc(
                        before,
                        cbor_text_bytes(ev[i as int].0) + iid(ct@, ev[i as int].1)->0,
                        pay_obj(ct@, ev, (i + 1) as nat),
                    );
                    assert(before + (cbor_text_bytes(ev[i as int].0) + iid(ct@, ev[i as int].1)->0) =~= out@);
                }
                i = i + 1;
            }
            proof {
                assert(out@ + Seq::<u8>::empty() =~= out@);
            }
            Ok(out)
        },
        RuntimeNode::Vec(es) => {
            let ghost ev = es@;
            let mut len: u64 = 0;
            if es.len() > 0 {
                let mx = entries_max(es);
                if mx == 0xffff_ffff_ffff_ffffu64 {
                    return Err(IndexedBinaryCodecError::InvalidNode);
                }
                len = mx + 1;
            }
            write_itype_len(&mut out, 3, len);
            let ghost head = out@;
            let mut i: u64 = 0;
            while i < len
                invariant
                    i <= len,
                    ev == es@,
                    node.nv() == NodeV::Vec(ev),
                    !(ev.len() > 0 && max_index(ev) == u64::MAX),
                    len == (if ev.len() == 0 { 0 } else { (max_index(ev) + 1) as u64 }),
                    head == itype_len(3, len),
                    then(head, pay_vec(ct@, ev, 0, len as nat)) == then(out@, pay_vec(ct@, ev, i as nat, len as nat)),
                decreases len - i,
            {
                let ghost before = out@;
                match vec_lookup(es, i) {
                    Some(t) => {
                        out.push(1);
                        if !write_iid(&mut out, ct, t) {
                            return Err(IndexedBinaryCodecError::InvalidFields);
                        }
                        proof {
                            lemma_then_assoc(before, seq![1u8] + iid(ct@, t)->0, pay_vec(ct@, ev, (i + 1) as nat, len as nat));
                            assert(before + (seq![1u8] + iid(ct@, t)->0) =~= out@);
                        }
                    },
                    None => {
                        out.push(0);
                        proof {
                            lemma_then_assoc(before, seq![0u8], pay_vec(ct@, ev, (i + 1) as nat, len as nat));
                            assert(before + seq![0u8] =~= out@);
                        }
                    },
                }
                i = i + 1;
            }
            proof {
                assert(out@ + Seq::<u8>::empty() =~= out@);
            }
            Ok(out)
        },
        RuntimeNode::Str(atoms) => {
            let ghost av = str_atoms_view(atoms@);
            let keys = str_keys(atoms);
            let b = chunks_of(&keys);
            let ghost bv = chunk_bounds(keys@, 0);
            assert(keys@ == keys_of(av));
            proof {
                lemma_chunks_in(keys@, 0);
            }
            write_itype_len(&mut out, 4, b.len() as u64);
            let ghost head = out@;
            let mut c: usize = 0;
            while c < b.len()
                invariant
                    c <= b@.len(),
                    b@.len() == bv.len(),
                    forall|q: int| 0 <= q < b@.len() ==> (#[trigger] b@[q]).0 as int == bv[q].0 && b@[q].1 as int == bv[q].1,
                    forall|q: int| 0 <= q < bv.len() ==> 0 <= (#[trigger] bv[q]).0 < bv[q].1 <= av.len(),
                    av == str_atoms_view(atoms@),
                    av.len() == atoms@.len(),
                    node.nv() == NodeV::Str(av),
                    bv == chunk_bounds(keys_of(av), 0),
                    head == itype_len(4, bv.len() as u64),
                    then(head, pay_str(ct@, av, bv, 0)) == then(out@, pay_str(ct@, av, bv, c as nat)),
                decreases b.len() - c,
            {
                let (i, j) = b[c];
                assert(bv[c as int] == (i as int, j as int));
                let ghost before = out@;
                if !write_iid(&mut out, ct, atoms[i].slot) {
                    return Err(IndexedBinaryCodecError::InvalidFields);
                }
                let ghost mid = out@;
                if atoms[i].ch.is_some() {
                    let text = chunk_text(atoms, i, j);
                    write_cbor_text(&mut out, text.as_str());
                } else {
                    write_cbor_uint(&mut out, 0, (j - i) as u64);
                }
                proof {
                    let part = out@.subrange(before.len() as int, out@.len() as int);
                    assert(before + part =~= out@);
                    lemma_then_assoc(before, part, pay_str(ct@, av, bv, (c + 1) as nat));
                }
                c = c + 1;
            }
            proof {
                assert(out@ + Seq::<u8>::empty() =~= out@);
            }
            Ok(out)
        },
        RuntimeNode::Bin(atoms) => {
            let ghost av = bin_atoms_view(atoms@);
            let keys = bin_keys(atoms);
            let b = chunks_of(&keys);
            let ghost bv = chunk_bounds(keys@, 0);
            assert(keys@ == keys_of(av));
            proof {
                lemma_chunks_in(keys@, 0);
            }
            write_itype_len(&mut out, 5, b.len() as u64);
            let ghost head = out@;
            let mut c: usize = 0;
            while c < b.len()
                invariant
                    c <= b@.len(),
                    b@.len() == bv.len(),
                    forall|q: int| 0 <= q < b@.len() ==> (#[trigger] b@[q]).0 as int == bv[q].0 && b@[q].1 as int == bv[q].1,
                    forall|q: int| 0 <= q < bv.len() ==> 0 <= (#[trigger] bv[q]).0 < bv[q].1 <= av.len(),
                    av == bin_atoms_view(atoms@),
                    av.len() == atoms@.len(),
                    node.nv() == NodeV::Bin(av),
                    bv == chunk_bounds(keys_of(av), 0),
                    head == itype_len(5, bv.len() as u64),
                    then(head, pay_bin(ct@, av, bv, 0)) == then(out@, pay_bin(ct@, av, bv, c as nat)),
                decreases b.len() - c,
            {
                let (i, j) = b[c];
                assert(bv[c as int] == (i as int, j as int));
                let ghost before = out@;
                if !write_iid(&mut out, ct, atoms[i].slot) {
                    return Err(IndexedBinaryCodecError::InvalidFields);
                }
                if atoms[i].byte.is_some() {
                    let bytes = chunk_bytes(atoms, i, j);
                    write_b1vu56(&mut out, 0, (j - i) as u64);
                    let mut k: usize = 0;
                    let ghost m2 = out@;
                    while k < bytes.len()
                        invariant
                            k <= bytes@.len(),
                            out@ == m2 + bytes@.take(k as int),
                        decreases bytes.len() - k,
                    {
                        out.push(bytes[k]);
                        assert(bytes@.take(k + 1) =~= bytes@.take(k as int).push(bytes@[k as int]));
                        k = k + 1;
                    }
                    assert(bytes@.take(bytes@.len() as int) =~= bytes@);
                } else {
                    write_b1vu56(&mut out, 1, (j - i) as u64);
                }
                proof {
                    let part = out@.subrange(before.len() as int, out@.len() as int);
                    assert(before + part =~= out@);
                    lemma_then_assoc(before, part, pay_bin(ct@, av, bv, (c + 1) as nat));
                }
                c = c + 1;
            }
            proof {
                assert(out@ + Seq::<u8>::empty() =~= out@);
            }
            Ok(out)
        },
        RuntimeNode::Arr(atoms) => {
            let ghost av = arr_atoms_view(atoms@);
            let keys = arr_keys(atoms);
            let b = chunks_of(&keys);
            let ghost bv = chunk_bounds(keys@, 0);
            assert(keys@ == keys_of(av));
            proof {
                lemma_chunks_in(keys@, 0);
            }
            write_itype_len(&mut out, 6, b.len() as u64);
            let ghost head = out@;
            let mut c: usize = 0;
            while c < b.len()
                invariant
                    c <= b@.len(),
                    b@.len() == bv.len(),
                    forall|q: int| 0 <= q < b@.len() ==> (#[trigger] b@[q]).0 as int == bv[q].0 && b@[q].1 as int == bv[q].1,
                    forall|q: int| 0 <= q < bv.len() ==> 0 <= (#[trigger] bv[q]).0 < bv[q].1 <= av.len(),
                    av == arr_atoms_view(atoms@),
                    av.len() == atoms@.len(),
                    node.nv() == NodeV::Arr(av),
                    bv == chunk_bounds(keys_of(av), 0),
                    head == itype_len(6, bv.len() as u64),
                    then(head, pay_arr(ct@, av, bv, 0)) == then(out@, pay_arr(ct@, av, bv, c as nat)),
                decreases b.len() - c,
            {
                let (i, j) = b[c];
                assert(bv[c as int] == (i as int, j as int));
                let ghost before = out@;
                if !write_iid(&mut out, ct, atoms[i].slot) {
                    return Err(IndexedBinaryCodecError::InvalidFields);
                }
                let ghost x = iid(ct@, av[i as int].0)->0;
                if atoms[i].value.is_some() {
                    write_b1vu56(&mut out, 0, (j - i) as u64);
                    let ghost m2 = out@;
                    let mut k: usize = i;
                    while k < j
                        invariant
                            i <= k <= j <= atoms@.len(),
                            av == arr_atoms_view(atoms@),
                            node.nv() == NodeV::Arr(av),
                            bv == chunk_bounds(keys_of(av), 0),
                            head == itype_len(6, bv.len() as u64),
                            c < bv.len(),
                            bv[c as int] == (i as int, j as int),
                            then(head, pay_arr(ct@, av, bv, 0)) == then(before, pay_arr(ct@, av, bv, c as nat)),
                            iid(ct@, av[i as int].0) == Some(x),
                            av[i as int].1 is Some,
                            pay_ids(ct@, av, i as int, j as int) == then(
                                out@.subrange(m2.len() as int, out@.len() as int),
                                pay_ids(ct@, av, k as int, j as int),
                            ),
                            out@.len() >= m2.len(),
                            out@.subrange(0, m2.len() as int) == m2,
                        decreases j - k,
                    {
                        let ghost w = out@;
                        if let Some(v) = atoms[k].value {
                            if !write_iid(&mut out, ct, v) {
                                proof {
                                    let r = pay_ids(ct@, av, k as int, j as int);
                                    assert(r is None);
                                    assert(pay_ids(ct@, av, i as int, j as int) is None);
                                    lemma_then_assoc(before, x + b1vu56_bytes(0, (j - i) as u64), None);
                                }
                                return Err(IndexedBinaryCodecError::InvalidFields);
                            }
                            proof {
                                let iv = iid(ct@, v)->0;
                                lemma_then_assoc(w.subrange(m2.len() as int, w.len() as int), iv, pay_ids(ct@, av, k + 1, j as int));
                                assert(w.subrange(m2.len() as int, w.len() as int) + iv =~= out@.subrange(m2.len() as int, out@.len() as int));
                            }
                        } else {
                            assert(w == out@);
                        }
                        assert(out@.subrange(0, m2.len() as int) =~= m2);
                        k = k + 1;
                    }
                    proof {
                        let ids = out@.subrange(m2.len() as int, out@.len() as int);
                        assert(ids + Seq::<u8>::empty() =~= ids);
                        assert(pay_ids(ct@, av, i as int, j as int) == Some(ids));
                        assert(m2 =~= before + x + b1vu56_bytes(0, (j - i) as u64));
                        assert(out@ =~= m2 + ids);
                        assert(before + (x + b1vu56_bytes(0, (j - i) as u64) + ids) =~= out@);
                        lemma_then_assoc(before, x + b1vu56_bytes(0, (j - i) as u64) + ids, pay_arr(ct@, av, bv, (c + 1) as nat));
                    }
                } else {
                    write_b1vu56(&mut out, 1, (j - i) as u64);
                    proof {
                        assert(before + (x + b1vu56_bytes(1, (j - i) as u64)) =~= out@);
                        lemma_then_assoc(before, x + b1vu56_bytes(1, (j - i) as u64), pay_arr(ct@, av, bv, (c + 1) as nat));
                    }
                }
                c = c + 1;
            }
            proof {
                assert(out@ + Seq::<u8>::empty() =~= out@);
            }
            Ok(out)
        },
    }
}

// ---------------------------------------------------------------------------
// Field names
// ---------------------------------------------------------------------------

/// A base-36 digit: `0`-`9`, then `a`-`z`.
pub open spec fn digit36(d: nat) -> char {
    if d < 10 {
        (d + 48) as char
    } else {
        (d + 87) as char
    }
}

/// A number in base 36, most significant digit first.
pub open spec fn base36(v: nat) -> Seq<char>
    decreases v,
{
    if v < 36 {
        seq![digit36(v)]
    } else {
        base36(v / 36) + seq![digit36(v % 36)]
    }
}

/// A number in base 36.
pub fn to_base36(v: u64) -> (res: String)
    ensures
        res@ == base36(v as nat),
    decreases v,
{
    let d = (v % 36) as u8;
    let ch: char = if d < 10 {
        (48u8 + d) as char
    } else {
        (87u8 + d) as char
    };
    if v < 36 {
        let mut s = String::new();
        s.push(ch);
        assert(s@ =~= seq![digit36(v as nat)]);
        s
    } else {
        let mut s = to_base36(v / 36);
        s.push(ch);
        s
    }
}

/// The field name of a node: its session's index and its time, in base 36.
pub open spec fn field_name(x: u64, time: u64) -> Seq<char> {
    base36(x as nat) + seq!['_'] + base36(time as nat)
}

/// The clock table as the `c` field: its length and entries as `vu57`.
pub open spec fn clock_field(ct: Seq<LogicalClockBase>) -> Seq<u8> {
    vu57_bytes(ct.len() as u64) + table_bytes(ct)
}

/// The index of session `sid` in the clock table (its last entry).
pub open spec fn sid_index(ct: Seq<LogicalClockBase>, sid: u64) -> Option<u64> {
    if exists|i: int| last_sid(ct, sid, i) {
        Some((choose|i: int| last_sid(ct, sid, i)) as u64)
    } else {
        None
    }
}

fn find_sid_index(ct: &Vec<LogicalClockBase>, sid: u64) -> (res: Option<u64>)
    ensures
        res == sid_index(ct@, sid),
{
    let mut found: Option<usize> = None;
    let mut i: usize = 0;
    while i < ct.len()
        invariant
            i <= ct@.len(),
            found matches Some(f) ==> f < i && ct@[f as int].sid == sid && forall|k: int|
                f < k < i ==> (#[trigger] ct@[k]).sid != sid,
            found is None ==> forall|k: int| 0 <= k < i ==> (#[trigger] ct@[k]).sid != sid,
        decreases ct.len() - i,
    {
        if ct[i].sid == sid {
            found = Some(i);
        }
        i = i + 1;
    }
    match found {
        Some(x) => {
            proof {
                assert(last_sid(ct@, sid, x as int));
                let c = choose|c: int| last_sid(ct@, sid, c);
                if c < x {
                    assert(ct@[x as int].sid != sid);
                }
                if c > x {
                    assert(ct@[c].sid != sid);
                }
            }
            Some(x as u64)
        },
        None => {
            proof {
                if exists|c: int| last_sid(ct@, sid, c) {
                    let c = choose|c: int| last_sid(ct@, sid, c);
                    assert(ct@[c].sid != sid);
                }
            }
            None
        },
    }
}

// ---------------------------------------------------------------------------
// Models as fields
// ---------------------------------------------------------------------------

/// The field of each node from index `k` on.
pub open spec fn node_fields(
    ct: Seq<LogicalClockBase>,
    nodes: Seq<(Timestamp, NodeV)>,
    k: nat,
) -> Result<Seq<(Seq<char>, Seq<u8>)>, IndexedBinaryCodecError>
    decreases nodes.len() - k,
{
    if k >= nodes.len() {
        Ok(Seq::empty())
    } else {
        let (id, n) = nodes[k as int];
        match sid_index(ct, id.sid) {
            None => Err(IndexedBinaryCodecError::InvalidFields),
            Some(x) => match node_payload(ct, n) {
                Err(e) => Err(e),
                Ok(p) => match node_fields(ct, nodes, k + 1) {
                    Err(e) => Err(e),
                    Ok(rest) => Ok(seq![(field_name(x, id.time), p)] + rest),
                },
            },
        }
    }
}

/// The fields of a model: `c` with the clock table, `r` with the root
/// (unless it is a system node), then one field per node.
pub open spec fn model_fields(m: RuntimeModel) -> Result<Seq<(Seq<char>, Seq<u8>)>, IndexedBinaryCodecError> {
    let ct = m.spec_clock_table();
    if m.spec_server_time() is Some || ct.len() == 0 {
        Err(IndexedBinaryCodecError::InvalidFields)
    } else {
        let c = seq![(seq!['c'], clock_field(ct))];
        let r = match m.graph().root {
            Some(root) => if root.sid != 0 {
                match iid(ct, root) {
                    Some(b) => Some(seq![(seq!['r'], b)]),
                    None => None,
                }
            } else {
                Some(Seq::empty())
            },
            None => Some(Seq::empty()),
        };
        match r {
            None => Err(IndexedBinaryCodecError::InvalidFields),
            Some(r) => match node_fields(ct, m.graph().nodes, 0) {
                Err(e) => Err(e),
                Ok(ns) => Ok(c + r + ns),
            },
        }
    }
}

/// The views of fields.
pub open spec fn fields_view(f: Seq<(String, Vec<u8>)>) -> Seq<(Seq<char>, Seq<u8>)> {
    f.map_values(|e: (String, Vec<u8>)| (e.0@, e.1@))
}

fn clock_bytes(ct: &Vec<LogicalClockBase>) -> (res: Vec<u8>)
    ensures
        res@ == clock_field(ct@),
{
    let mut out: Vec<u8> = Vec::new();
    write_vu57(&mut out, ct.len() as u64);
    let ghost mid = out@;
    let mut k: usize = 0;
    assert(ct@.take(0) =~= Seq::<LogicalClockBase>::empty());
    while k < ct.len()
        invariant
            k <= ct@.len(),
            out@ =~= mid + table_bytes(ct@.take(k as int)),
        decreases ct.len() - k,
    {
        write_vu57(&mut out, ct[k].sid);
        write_vu57(&mut out, ct[k].time);
        assert(ct@.take(k + 1).drop_last() =~= ct@.take(k as int));
        k = k + 1;
    }
    assert(ct@.take(ct@.len() as int) =~= ct@);
    out
}

impl RuntimeModel {
    /// The fields of the model (see `model_fields`).
    pub fn to_indexed_fields(&self) -> (res: Result<Vec<(String, Vec<u8>)>, IndexedBinaryCodecError>)
        ensures
            match model_fields(*self) {
                Ok(f) => res matches Ok(v) && fields_view(v@) == f,
                Err(e) => res == Err::<Vec<(String, Vec<u8>)>, IndexedBinaryCodecError>(e),
            },
    {
        let ct = self.clock_table_ref();
        if self.server_time().is_some() || ct.len() == 0 {
            return Err(IndexedBinaryCodecError::InvalidFields);
        }
        let mut out: Vec<(String, Vec<u8>)> = Vec::new();
        let mut c = String::new();
        c.push('c');
        assert(c@ =~= seq!['c']);
        out.push((c, clock_bytes(ct)));
        let ghost cpart = seq![(seq!['c'], clock_field(ct@))];
        assert(fields_view(out@) =~= cpart);
        let ghost mut rpart: Seq<(Seq<char>, Seq<u8>)> = Seq::empty();
        match self.root_id() {
            Some(root) => {
                if root.sid != 0 {
                    let mut b: Vec<u8> = Vec::new();
                    if !write_iid(&mut b, ct, root) {
                        return Err(IndexedBinaryCodecError::InvalidFields);
                    }
                    let mut r = String::new();
                    r.push('r');
                    assert(r@ =~= seq!['r']);
                    assert(b@ =~= iid(ct@, root)->0);
                    out.push((r, b));
                    proof {
                        rpart = seq![(seq!['r'], iid(ct@, root)->0)];
                        assert(fields_view(out@) =~= cpart + rpart);
                    }
                } else {
                    assert(fields_view(out@) =~= cpart + rpart);
                }
            },
            None => {
                assert(fields_view(out@) =~= cpart + rpart);
            },
        }
        let ghost head = fields_view(out@);
        let ghost g = self.graph().nodes;
        let n = self.node_count();
        let mut k: usize = 0;
        proof {
            assert(head + Seq::<(Seq<char>, Seq<u8>)>::empty() =~= head);
        }
        while k < n
            invariant
                k <= n,
                n == g.len(),
                g == self.graph().nodes,
                ct@ == self.spec_clock_table(),
                model_fields(*self) == match node_fields(ct@, g, 0) {
                    Err(e) => Err(e),
                    Ok(ns) => Ok::<Seq<(Seq<char>, Seq<u8>)>, IndexedBinaryCodecError>(head + ns),
                },
                match node_fields(ct@, g, 0) {
                    Ok(all) => match node_fields(ct@, g, k as nat) {
                        Ok(rest) => head + all == fields_view(out@) + rest,
                        Err(_) => false,
                    },
                    Err(e) => node_fields(ct@, g, k as nat) == Err::<Seq<(Seq<char>, Seq<u8>)>, IndexedBinaryCodecError>(e),
                },
            decreases n - k,
        {
            let (id, node) = self.node_entry(k);
            let x = match find_sid_index(ct, id.sid) {
                Some(x) => x,
                None => {
                    return Err(IndexedBinaryCodecError::InvalidFields);
                },
            };
            let payload = match encode_node_payload(node, ct) {
                Ok(p) => p,
                Err(e) => {
                    return Err(e);
                },
            };
            let mut name = to_base36(x);
            name.push('_');
            let t = to_base36(id.time);
            name.append(t.as_str());
            assert(name@ =~= field_name(x, id.time));
            let ghost before = fields_view(out@);
            out.push((name, payload));
            proof {
                assert(fields_view(out@) =~= before.push((field_name(x, id.time), payload@)));
                match node_fields(ct@, g, (k + 1) as nat) {
                    Ok(rest) => {
                        assert(before + (seq![(field_name(x, id.time), payload@)] + rest) =~= before.push(
                            (field_name(x, id.time), payload@),
                        ) + rest);
                    },
                    Err(_) => {},
                }
            }
            k = k + 1;
        }
        proof {
            assert(fields_view(out@) + Seq::<(Seq<char>, Seq<u8>)>::empty() =~= fields_view(out@));
        }
        Ok(out)
    }
}

/// The fields of a model binary: the model it loads as, as fields; a
/// binary that does not load gives its failure.
pub fn encode_model_binary_to_fields(model_binary: &[u8]) -> (res: Result<Vec<(String, Vec<u8>)>, IndexedBinaryCodecError>)
    ensures
        (exists|e: ModelError|
            view_result_ok(model_binary@, Err(e)) && res == Err::<Vec<(String, Vec<u8>)>, IndexedBinaryCodecError>(
                IndexedBinaryCodecError::Model(e),
            )) || (exists|m: RuntimeModel, v: JsonValue|
            view_result_ok(model_binary@, Ok(v)) && m.loaded_from(model_binary@, v.jv()) && match model_fields(m) {
                Ok(f) => res matches Ok(x) && fields_view(x@) == f,
                Err(e) => res == Err::<Vec<(String, Vec<u8>)>, IndexedBinaryCodecError>(e),
            }),
{
    let runtime = match RuntimeModel::from_model_binary(model_binary) {
        Ok(m) => m,
        Err(e) => {
            return Err(IndexedBinaryCodecError::Model(e));
        },
    };
    runtime.to_indexed_fields()
}

} // verus!
