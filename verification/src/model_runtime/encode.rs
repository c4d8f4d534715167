//! Encoding the runtime graph as a model binary: the root node tree, then
//! (for a logical clock) the table of sessions that the identifiers in it
//! refer to; runs of string, binary and array slots are written as chunks.

use vstd::prelude::*;
use crate::crdt_binary::{b1vu56_bytes, vu57_bytes, write_b1vu56, write_vu57, LogicalClockBase};
use crate::model::ModelError;
use crate::cbor_enc::{cbor_text_bytes, cbor_uint_bytes, json_cbor_bytes, write_cbor_json, write_cbor_text, write_cbor_uint};
use crate::patch::Timestamp;
use crate::patch_builder::sat_add;
use super::types::{
    ConCell, ConCellV, NodeV, RuntimeNode, StrAtom, BinAtom, ArrAtom, has_node, node_at, store_view,
    obj_entries_view, str_atoms_view, bin_atoms_view, arr_atoms_view,
};
use super::view::max_index;
use super::RuntimeModel;
use crate::json::JsonValue;
use crate::patch::copy_vec;
use crate::patch_log::be32;
use super::clock::has_end;

verus! {

// ---------------------------------------------------------------------------
// Chunks of slots
// ---------------------------------------------------------------------------

/// How the next slot's time follows the previous one's: one tick later (1),
/// one tick earlier (-1), or neither (0).
pub open spec fn step_of(prev: Timestamp, cur: Timestamp) -> int {
    if cur.time == sat_add(prev.time, 1) {
        1
    } else if sat_add(cur.time, 1) == prev.time {
        -1
    } else {
        0
    }
}

/// Where the run of slots that reached `j` (going in direction `dir`, 0 for
/// none yet) ends: it goes on while the slots keep their session and their
/// presence and step in one direction.
pub open spec fn run_end(keys: Seq<(Timestamp, bool)>, j: int, dir: int) -> int
    decreases keys.len() - j,
{
    if j < 1 || j >= keys.len() {
        j
    } else {
        let p = keys[j - 1];
        let c = keys[j];
        if p.0.sid != c.0.sid || p.1 != c.1 {
            j
        } else {
            let s = step_of(p.0, c.0);
            if s == 0 || (dir != 0 && s != dir) {
                j
            } else {
                run_end(keys, j + 1, s)
            }
        }
    }
}

proof fn lemma_run_end_bounds(keys: Seq<(Timestamp, bool)>, j: int, dir: int)
    requires
        1 <= j <= keys.len(),
    ensures
        j <= run_end(keys, j, dir) <= keys.len(),
    decreases keys.len() - j,
{
    if j < keys.len() {
        let p = keys[j - 1];
        let c = keys[j];
        if !(p.0.sid != c.0.sid || p.1 != c.1) {
            let s = step_of(p.0, c.0);
            if !(s == 0 || (dir != 0 && s != dir)) {
                lemma_run_end_bounds(keys, j + 1, s);
            }
        }
    }
}

/// The chunks of the slots from `i` on: each a run, as its start and end.
pub open spec fn chunk_bounds(keys: Seq<(Timestamp, bool)>, i: int) -> Seq<(int, int)>
    decreases keys.len() - i,
{
    if i < 0 || i >= keys.len() {
        Seq::empty()
    } else {
        let j = run_end(keys, i + 1, 0);
        if j <= i || j > keys.len() {
            Seq::empty()
        } else {
            seq![(i, j)] + chunk_bounds(keys, j)
        }
    }
}

/// The chunks of the slots, as starts and ends.
pub(crate) fn chunks_of(keys: &Vec<(Timestamp, bool)>) -> (res: Vec<(usize, usize)>)
    ensures
        res@.len() == chunk_bounds(keys@, 0).len(),
        forall|c: int|
            0 <= c < res@.len() ==> (#[trigger] res@[c]).0 as int == chunk_bounds(keys@, 0)[c].0
                && res@[c].1 as int == chunk_bounds(keys@, 0)[c].1,
{
    let ghost ks = keys@;
    let mut out: Vec<(usize, usize)> = Vec::new();
    let ghost mut done: Seq<(int, int)> = Seq::empty();
    let mut i: usize = 0;
    while i < keys.len()
        invariant
            i <= keys.len(),
            ks == keys@,
            out@.len() == done.len(),
            forall|c: int| 0 <= c < out@.len() ==> (#[trigger] out@[c]).0 as int == done[c].0 && out@[c].1 as int == done[c].1,
            chunk_bounds(ks, 0) == done + chunk_bounds(ks, i as int),
        decreases keys.len() - i,
    {
        let mut j: usize = i + 1;
        let mut dir: i8 = 0;
        while j < keys.len()
            invariant
                i < j <= keys.len(),
                ks == keys@,
                -1 <= dir <= 1,
                run_end(ks, (i + 1) as int, 0) == run_end(ks, j as int, dir as int),
            ensures
                i < j <= keys.len(),
                run_end(ks, (i + 1) as int, 0) == j,
            decreases keys.len() - j,
        {
            let (ps, pp) = keys[j - 1];
            let (cs, cp) = keys[j];
            if ps.sid != cs.sid || pp != cp {
                assert(run_end(ks, j as int, dir as int) == j);
                break;
            }
            let step: i8 = if cs.time == ps.time.saturating_add(1) {
                1
            } else if cs.time.saturating_add(1) == ps.time {
                -1
            } else {
                0
            };
            assert(step as int == step_of(ps, cs));
            if step == 0 || (dir != 0 && step != dir) {
                assert(run_end(ks, j as int, dir as int) == j);
                break;
            }
            dir = step;
            j = j + 1;
        }
        proof {
            let rest = chunk_bounds(ks, j as int);
            assert(chunk_bounds(ks, i as int) == seq![(i as int, j as int)] + rest);
            assert(done + (seq![(i as int, j as int)] + rest) =~= done.push((i as int, j as int)) + rest);
        }
        out.push((i, j));
        proof {
            done = done.push((i as int, j as int));
        }
        i = j;
    }
    assert(chunk_bounds(ks, i as int) =~= Seq::<(int, int)>::empty());
    assert(done + Seq::<(int, int)>::empty() =~= done);
    out
}

// ---------------------------------------------------------------------------
// Identifiers
// ---------------------------------------------------------------------------

/// `a - b`, or 0 when that is negative.
pub open spec fn sat_sub(a: u64, b: u64) -> u64 {
    if a < b {
        0
    } else {
        (a - b) as u64
    }
}

/// What the encoder has written so far and the session table it has built.
pub struct EncSt {
    pub out: Seq<u8>,
    pub table: Seq<LogicalClockBase>,
}

/// How identifiers are written: relative to a session table that the
/// encoder builds (a new session starting at its peer time, else at the
/// time before `lt`), or as the bare time of a server clock.
pub enum IdMode {
    Logical { lt: u64, peers: Map<u64, u64> },
    Server,
}

/// Where encoding gets: a state, a failure, or nowhere (a reference cycle,
/// or a number past its type's range, where nothing stops).
pub enum Enc {
    Done(EncSt),
    Fail(ModelError),
    Stuck,
}

/// `i` is the first entry of the table for session `sid`.
pub open spec fn first_sid(table: Seq<LogicalClockBase>, sid: u64, i: int) -> bool {
    &&& 0 <= i < table.len()
    &&& table[i].sid == sid
    &&& forall|k: int| 0 <= k < i ==> (#[trigger] table[k]).sid != sid
}

/// An identifier as a session index and a time difference: one byte when
/// both are small, else a flagged `b1vu56` index and a `vu57` difference.
pub open spec fn id_code(si: u64, diff: u64) -> Seq<u8> {
    if si <= 7 && diff <= 15 {
        seq![(si * 16 + diff) as u8]
    } else {
        b1vu56_bytes(1, si) + vu57_bytes(diff)
    }
}

/// The state with bytes written.
pub open spec fn put(st: EncSt, b: Seq<u8>) -> EncSt {
    EncSt { out: st.out + b, table: st.table }
}

/// Writes an identifier.
pub open spec fn enc_id(m: IdMode, st: EncSt, id: Timestamp) -> Enc {
    match m {
        IdMode::Server => Enc::Done(put(st, vu57_bytes(id.time))),
        IdMode::Logical { lt, peers } => if exists|i: int| first_sid(st.table, id.sid, i) {
            let i = choose|i: int| first_sid(st.table, id.sid, i);
            let base = st.table[i].time;
            if base < id.time {
                Enc::Fail(ModelError::InvalidClockTable)
            } else {
                Enc::Done(put(st, id_code((i + 1) as u64, (base - id.time) as u64)))
            }
        } else if st.table.len() + 1 > u64::MAX {
            Enc::Stuck
        } else {
            let base = if peers.contains_key(id.sid) {
                peers[id.sid]
            } else {
                sat_sub(lt, 1)
            };
            if base < id.time {
                Enc::Fail(ModelError::InvalidClockTable)
            } else {
                Enc::Done(
                    EncSt {
                        out: st.out + id_code((st.table.len() + 1) as u64, (base - id.time) as u64),
                        table: st.table.push(LogicalClockBase { sid: id.sid, time: base }),
                    },
                )
            }
        },
    }
}

/// A candidate for the clock of peer `sid`: a later entry of the clock table,
/// or the end of an observed interval of another session than the local one.
pub open spec fn peer_cand(ct: Seq<LogicalClockBase>, ends: Set<(u64, u64)>, ls: u64, sid: u64, t: u64) -> bool {
    (exists|i: int| 1 <= i < ct.len() && (#[trigger] ct[i]).sid == sid && ct[i].time == t) || (sid != ls
        && ends.contains((sid, t)))
}

/// The greatest candidate for the clock of peer `sid`, when there is one.
pub open spec fn peer_max(ct: Seq<LogicalClockBase>, ends: Set<(u64, u64)>, ls: u64, sid: u64) -> Option<u64> {
    if exists|t: u64| peer_cand(ct, ends, ls, sid, t) {
        Some(
            choose|t: u64|
                peer_cand(ct, ends, ls, sid, t) && forall|u: u64| #[trigger] peer_cand(ct, ends, ls, sid, u) ==> u <= t,
        )
    } else {
        None
    }
}

/// The peers' clocks.
pub open spec fn peers_map(ct: Seq<LogicalClockBase>, ends: Set<(u64, u64)>, ls: u64) -> Map<u64, u64> {
    Map::new(|sid: u64| peer_max(ct, ends, ls, sid) is Some, |sid: u64| peer_max(ct, ends, ls, sid)->0)
}

/// `t + 1`, or `u64::MAX` when that overflows.
pub open spec fn sat_inc(t: u64) -> u64 {
    sat_add(t, 1)
}

/// Whether `lt` is the local time after the clock table and the observed
/// intervals: the greatest of the tick after the table's first entry and
/// the ticks after the intervals' ends.
pub open spec fn is_local_time(ct: Seq<LogicalClockBase>, ends: Set<(u64, u64)>, lt: u64) -> bool {
    &&& lt >= sat_inc(ct[0].time)
    &&& forall|p: (u64, u64)| #[trigger] ends.contains(p) ==> sat_inc(p.1) <= lt
    &&& lt == sat_inc(ct[0].time) || exists|p: (u64, u64)| #[trigger] ends.contains(p) && lt == sat_inc(p.1)
}

/// The local time after the clock table and the observed intervals.
pub open spec fn local_time_of(ct: Seq<LogicalClockBase>, ends: Set<(u64, u64)>) -> u64 {
    choose|lt: u64| is_local_time(ct, ends, lt)
}

/// How a model with a logical clock writes identifiers.
pub open spec fn logical_mode(ct: Seq<LogicalClockBase>, ends: Set<(u64, u64)>) -> IdMode {
    IdMode::Logical { lt: local_time_of(ct, ends), peers: peers_map(ct, ends, ct[0].sid) }
}

/// The largest candidate for a peer's clock.
fn peer_time(ct: &Vec<LogicalClockBase>, ends: &Vec<(u64, u64)>, ls: u64, sid: u64) -> (res: Option<u64>)
    ensures
        res == peer_max(ct@, ends@.to_set(), ls, sid),
{
    let ghost e = ends@.to_set();
    let mut best: Option<u64> = None;
    let mut i: usize = 1;
    while i < ct.len()
        invariant
            1 <= i,
            i <= ct.len() || ct.len() == 0,
            forall|k: int| 1 <= k < i && k < ct@.len() && (#[trigger] ct@[k]).sid == sid ==> (best is Some && ct@[k].time <= best->0),
            best is Some ==> exists|k: int| 1 <= k < ct@.len() && (#[trigger] ct@[k]).sid == sid && ct@[k].time == best->0,
        decreases ct.len() - i,
    {
        if ct[i].sid == sid {
            let t = ct[i].time;
            match best {
                Some(b) => {
                    if t > b {
                        best = Some(t);
                    }
                },
                None => {
                    best = Some(t);
                },
            }
        }
        i = i + 1;
    }
    let mut j: usize = 0;
    while j < ends.len()
        invariant
            j <= ends.len(),
            e == ends@.to_set(),
            forall|k: int| 1 <= k < ct@.len() && (#[trigger] ct@[k]).sid == sid ==> (best is Some && ct@[k].time <= best->0),
            sid != ls ==> forall|q: int| 0 <= q < j && (#[trigger] ends@[q]).0 == sid ==> (best is Some && ends@[q].1 <= best->0),
            best is Some ==> peer_cand(ct@, e, ls, sid, best->0),
        decreases ends.len() - j,
    {
        let (s, t) = ends[j];
        if s == sid && sid != ls {
            assert(ends@[j as int] == (s, t));
            assert(e.contains((s, t)));
            match best {
                Some(b) => {
                    if t > b {
                        best = Some(t);
                    }
                },
                None => {
                    best = Some(t);
                },
            }
        }
        j = j + 1;
    }
    proof {
        assert forall|t: u64| #[trigger] peer_cand(ct@, e, ls, sid, t) implies (best is Some && t <= best->0) by {
            if sid != ls && e.contains((sid, t)) {
                let q = choose|q: int| 0 <= q < ends@.len() && ends@[q] == (sid, t);
                assert(ends@[q].0 == sid);
            }
        }
        if best is Some {
            let b = best->0;
            let c = choose|t: u64|
                peer_cand(ct@, e, ls, sid, t) && forall|u: u64| #[trigger] peer_cand(ct@, e, ls, sid, u) ==> u <= t;
            assert(peer_cand(ct@, e, ls, sid, b) && forall|u: u64| #[trigger] peer_cand(ct@, e, ls, sid, u) ==> u <= b);
            assert(c <= b && b <= c);
        } else {
            assert(!exists|t: u64| peer_cand(ct@, e, ls, sid, t));
        }
    }
    best
}

/// The local time after the clock table and the observed intervals.
fn local_time(ct: &Vec<LogicalClockBase>, ends: &Vec<(u64, u64)>) -> (res: u64)
    requires
        ct@.len() > 0,
    ensures
        res == local_time_of(ct@, ends@.to_set()),
{
    let ghost e = ends@.to_set();
    let init = ct[0].time.saturating_add(1);
    let mut lt = init;
    let mut j: usize = 0;
    while j < ends.len()
        invariant
            j <= ends.len(),
            ct@.len() > 0,
            init == sat_inc(ct@[0].time),
            lt >= init,
            forall|q: int| 0 <= q < j ==> sat_inc((#[trigger] ends@[q]).1) <= lt,
            lt == init || exists|q: int| 0 <= q < j && lt == sat_inc((#[trigger] ends@[q]).1),
        decreases ends.len() - j,
    {
        let end = ends[j].1;
        if end >= lt {
            lt = end.saturating_add(1);
        }
        j = j + 1;
    }
    proof {
        assert forall|p: (u64, u64)| #[trigger] e.contains(p) implies sat_inc(p.1) <= lt by {
            let q = choose|q: int| 0 <= q < ends@.len() && ends@[q] == p;
            assert(sat_inc(ends@[q].1) <= lt);
        }
        if lt != init {
            let q = choose|q: int| 0 <= q < ends.len() && lt == sat_inc((#[trigger] ends@[q]).1);
            assert(e.contains(ends@[q]));
        }
        assert(is_local_time(ct@, e, lt));
        let c = choose|x: u64| is_local_time(ct@, e, x);
        assert(is_local_time(ct@, e, c));
        if c != init {
            let p = choose|p: (u64, u64)| #[trigger] e.contains(p) && c == sat_inc(p.1);
            assert(c <= lt);
        }
        if lt != init {
            let p = choose|p: (u64, u64)| #[trigger] e.contains(p) && lt == sat_inc(p.1);
            assert(lt <= c);
        }
        assert(c == lt);
    }
    lt
}

/// A failure of the encoder: a model error, or where the encoding would
/// never end.
pub enum EncFail {
    Model(ModelError),
    Stuck,
}

/// What an encoder result says of where encoding gets.
pub open spec fn fail_of(e: EncFail) -> Enc {
    match e {
        EncFail::Model(m) => Enc::Fail(m),
        EncFail::Stuck => Enc::Stuck,
    }
}

/// The encoder: its output, its session table, and how it writes
/// identifiers.
pub struct Encoder {
    out: Vec<u8>,
    table: Vec<LogicalClockBase>,
    logical: bool,
    lt: u64,
    ct: Vec<LogicalClockBase>,
    ends: Vec<(u64, u64)>,
    ls: u64,
}

impl Encoder {
    /// What the encoder has written and built.
    pub closed spec fn st(&self) -> EncSt {
        EncSt { out: self.out@, table: self.table@ }
    }

    /// How the encoder writes identifiers.
    pub closed spec fn mode(&self) -> IdMode {
        if self.logical {
            IdMode::Logical { lt: self.lt, peers: peers_map(self.ct@, self.ends@.to_set(), self.ls) }
        } else {
            IdMode::Server
        }
    }

    /// Writes bytes.
    fn put_bytes(&mut self, b: &[u8])
        ensures
            final(self).st() == put(old(self).st(), b@),
            final(self).mode() == old(self).mode(),
    {
        let mut i: usize = 0;
        let ghost start = self.out@;
        while i < b.len()
            invariant
                i <= b.len(),
                self.out@ == start + b@.take(i as int),
                self.table == old(self).table,
                self.logical == old(self).logical,
                self.lt == old(self).lt,
                self.ct == old(self).ct,
                self.ends == old(self).ends,
                self.ls == old(self).ls,
            decreases b.len() - i,
        {
            self.out.push(b[i]);
            assert(b@.take(i + 1) =~= b@.take(i as int).push(b@[i as int]));
            i = i + 1;
        }
        assert(b@.take(b@.len() as int) =~= b@);
    }

    /// Writes a byte.
    fn put_byte(&mut self, b: u8)
        ensures
            final(self).st() == put(old(self).st(), seq![b]),
            final(self).mode() == old(self).mode(),
    {
        self.out.push(b);
        assert(self.out@ =~= old(self).out@ + seq![b]);
    }

    /// Writes an identifier.
    fn encode_id(&mut self, id: Timestamp) -> (res: Result<(), EncFail>)
        ensures
            final(self).mode() == old(self).mode(),
            match enc_id(old(self).mode(), old(self).st(), id) {
                Enc::Done(st) => res is Ok && final(self).st() == st,
                other => res matches Err(f) && fail_of(f) == other,
            },
    {
        if !self.logical {
            write_vu57(&mut self.out, id.time);
            return Ok(());
        }
        let mut i: usize = 0;
        while i < self.table.len() && self.table[i].sid != id.sid
            invariant
                i <= self.table@.len(),
                forall|k: int| 0 <= k < i ==> (#[trigger] self.table@[k]).sid != id.sid,
            decreases self.table.len() - i,
        {
            i = i + 1;
        }
        let ghost m = self.mode();
        if i < self.table.len() {
            proof {
                assert(first_sid(self.table@, id.sid, i as int));
                let c = choose|c: int| first_sid(self.table@, id.sid, c);
                if c < i {
                    assert(self.table@[c].sid != id.sid);
                }
                if c > i {
                    assert(self.table@[i as int].sid != id.sid);
                }
            }
            let base = self.table[i].time;
            if base < id.time {
                return Err(EncFail::Model(ModelError::InvalidClockTable));
            }
            let diff = base - id.time;
            let si = (i as u64) + 1;
            self.write_code(si, diff);
            return Ok(());
        }
        proof {
            assert(!exists|c: int| first_sid(self.table@, id.sid, c));
        }
        if self.table.len() as u64 == 0xffff_ffff_ffff_ffffu64 {
            return Err(EncFail::Stuck);
        }
        let base = match peer_time(&self.ct, &self.ends, self.ls, id.sid) {
            Some(p) => p,
            None => self.lt.saturating_sub(1),
        };
        if base < id.time {
            return Err(EncFail::Model(ModelError::InvalidClockTable));
        }
        let diff = base - id.time;
        let si = (self.table.len() as u64) + 1;
        self.table.push(LogicalClockBase { sid: id.sid, time: base });
        self.write_code(si, diff);
        Ok(())
    }

    /// Writes an identifier's session index and time difference.
    fn write_code(&mut self, si: u64, diff: u64)
        ensures
            final(self).st() == put(old(self).st(), id_code(si, diff)),
            final(self).mode() == old(self).mode(),
    {
        if si <= 7 && diff <= 15 {
            self.out.push((si * 16 + diff) as u8);
            assert(self.out@ =~= old(self).out@ + id_code(si, diff));
        } else {
            write_b1vu56(&mut self.out, 1, si);
            write_vu57(&mut self.out, diff);
            assert(self.out@ =~= old(self).out@ + id_code(si, diff));
        }
    }
}


// ---------------------------------------------------------------------------
// Nodes
// ---------------------------------------------------------------------------

/// A CBOR-like head of major type `major` and length `len`: the length
/// inline below 31, else 31 and a `vu57` length.
pub open spec fn type_len(major: u8, len: u64) -> Seq<u8> {
    if len < 31 {
        seq![(major * 32 + len) as u8]
    } else {
        seq![(major * 32 + 31) as u8] + vu57_bytes(len)
    }
}

/// The slots' identifiers and whether each still holds an item.
pub open spec fn keys_of<T>(atoms: Seq<(Timestamp, Option<T>)>) -> Seq<(Timestamp, bool)> {
    atoms.map_values(|a: (Timestamp, Option<T>)| (a.0, a.1 is Some))
}

/// The items the slots still hold.
pub open spec fn somes<T>(atoms: Seq<(Timestamp, Option<T>)>) -> Seq<T>
    decreases atoms.len(),
{
    if atoms.len() == 0 {
        Seq::empty()
    } else {
        somes(atoms.drop_last()) + match atoms.last().1 {
            Some(x) => seq![x],
            None => Seq::empty(),
        }
    }
}

/// The child at index `k` of vector entries (the first such entry).
pub open spec fn vec_get(es: Seq<(u64, Timestamp)>, k: int) -> Option<Timestamp>
    decreases es.len(),
{
    if es.len() == 0 {
        None
    } else if es[0].0 == k {
        Some(es[0].1)
    } else {
        vec_get(es.skip(1), k)
    }
}

/// Writes node `id` and the nodes under it, at most `fuel` levels deep.
pub open spec fn enc_node(g: Seq<(Timestamp, NodeV)>, m: IdMode, st: EncSt, id: Timestamp, fuel: nat) -> Enc
    decreases fuel, 0nat, 0nat,
{
    if fuel == 0 {
        Enc::Stuck
    } else if !has_node(g, id) {
        Enc::Fail(ModelError::InvalidModelBinary)
    } else {
        match enc_id(m, st, id) {
            Enc::Done(s1) => {
                let f = (fuel - 1) as nat;
                match node_at(g, id) {
                    NodeV::Con(ConCellV::Json(j)) => Enc::Done(put(s1, seq![0u8] + json_cbor_bytes(j))),
                    NodeV::Con(ConCellV::Ref(r)) => enc_id(m, put(s1, seq![1u8]), r),
                    NodeV::Con(_) => Enc::Done(put(s1, seq![0u8, 0xf7u8])),
                    NodeV::Val(c) => enc_node(g, m, put(s1, seq![0x20u8]), c, f),
                    NodeV::Obj(es) => enc_obj(g, m, put(s1, type_len(2, es.len() as u64)), es, 0, f),
                    NodeV::Vec(es) => if es.len() > 0 && max_index(es) == u64::MAX {
                        Enc::Stuck
                    } else {
                        let len: u64 = if es.len() == 0 {
                            0
                        } else {
                            (max_index(es) + 1) as u64
                        };
                        enc_vec(g, m, put(s1, type_len(3, len)), es, 0, len as nat, f)
                    },
                    NodeV::Str(atoms) => {
                        let b = chunk_bounds(keys_of(atoms), 0);
                        enc_str(m, put(s1, type_len(4, b.len() as u64)), atoms, b, 0)
                    },
                    NodeV::Bin(atoms) => {
                        let b = chunk_bounds(keys_of(atoms), 0);
                        enc_bin(m, put(s1, type_len(5, b.len() as u64)), atoms, b, 0)
                    },
                    NodeV::Arr(atoms) => {
                        let b = chunk_bounds(keys_of(atoms), 0);
                        enc_arr(g, m, put(s1, type_len(6, b.len() as u64)), atoms, b, 0, f)
                    },
                }
            },
            other => other,
        }
    }
}

/// Writes object entries from index `i` on: each key, then its node.
pub open spec fn enc_obj(
    g: Seq<(Timestamp, NodeV)>,
    m: IdMode,
    st: EncSt,
    es: Seq<(Seq<char>, Timestamp)>,
    i: nat,
    fuel: nat,
) -> Enc
    decreases fuel, 1nat, es.len() - i,
{
    if i >= es.len() {
        Enc::Done(st)
    } else {
        match enc_node(g, m, put(st, cbor_text_bytes(es[i as int].0)), es[i as int].1, fuel) {
            Enc::Done(s2) => enc_obj(g, m, s2, es, i + 1, fuel),
            other => other,
        }
    }
}

/// Writes vector elements from index `i` up to `len`: each node, or a zero
/// byte where the vector holds nothing.
pub open spec fn enc_vec(
    g: Seq<(Timestamp, NodeV)>,
    m: IdMode,
    st: EncSt,
    es: Seq<(u64, Timestamp)>,
    i: nat,
    len: nat,
    fuel: nat,
) -> Enc
    decreases fuel, 1nat, len - i,
{
    if i >= len {
        Enc::Done(st)
    } else {
        match vec_get(es, i as int) {
            Some(t) => match enc_node(g, m, st, t, fuel) {
                Enc::Done(s2) => enc_vec(g, m, s2, es, i + 1, len, fuel),
                other => other,
            },
            None => enc_vec(g, m, put(st, seq![0u8]), es, i + 1, len, fuel),
        }
    }
}

/// Writes string chunks from chunk `c` on: each its first slot's identifier,
/// then its text, or the number of its deleted slots.
pub open spec fn enc_str(m: IdMode, st: EncSt, atoms: Seq<(Timestamp, Option<char>)>, b: Seq<(int, int)>, c: nat) -> Enc
    decreases b.len() - c,
{
    if c >= b.len() {
        Enc::Done(st)
    } else {
        let (i, j) = b[c as int];
        match enc_id(m, st, atoms[i].0) {
            Enc::Done(s1) => enc_str(
                m,
                put(
                    s1,
                    if atoms[i].1 is Some {
                        cbor_text_bytes(somes(atoms.subrange(i, j)))
                    } else {
                        cbor_uint_bytes(0, (j - i) as u64)
                    },
                ),
                atoms,
                b,
                c + 1,
            ),
            other => other,
        }
    }
}

/// Writes binary chunks from chunk `c` on: each its first slot's
/// identifier, then its length flagged as present with its bytes, or as
/// deleted.
pub open spec fn enc_bin(m: IdMode, st: EncSt, atoms: Seq<(Timestamp, Option<u8>)>, b: Seq<(int, int)>, c: nat) -> Enc
    decreases b.len() - c,
{
    if c >= b.len() {
        Enc::Done(st)
    } else {
        let (i, j) = b[c as int];
        match enc_id(m, st, atoms[i].0) {
            Enc::Done(s1) => enc_bin(
                m,
                put(
                    s1,
                    if atoms[i].1 is Some {
                        b1vu56_bytes(0, (j - i) as u64) + somes(atoms.subrange(i, j))
                    } else {
                        b1vu56_bytes(1, (j - i) as u64)
                    },
                ),
                atoms,
                b,
                c + 1,
            ),
            other => other,
        }
    }
}

/// Writes array chunks from chunk `c` on: each its first slot's identifier,
/// then its length flagged as present with the nodes of its elements, or as
/// deleted.
pub open spec fn enc_arr(
    g: Seq<(Timestamp, NodeV)>,
    m: IdMode,
    st: EncSt,
    atoms: Seq<(Timestamp, Option<Timestamp>)>,
    b: Seq<(int, int)>,
    c: nat,
    fuel: nat,
) -> Enc
    decreases fuel, b.len() - c + 1, 0nat,
{
    if c >= b.len() {
        Enc::Done(st)
    } else {
        let (i, j) = b[c as int];
        match enc_id(m, st, atoms[i].0) {
            Enc::Done(s1) => if atoms[i].1 is Some {
                enc_arr_vals(g, m, put(s1, b1vu56_bytes(0, (j - i) as u64)), atoms, b, c, i, fuel)
            } else {
                enc_arr(g, m, put(s1, b1vu56_bytes(1, (j - i) as u64)), atoms, b, c + 1, fuel)
            },
            other => other,
        }
    }
}

/// Writes the elements of array chunk `c` from slot `k` on, then the chunks
/// after it.
pub open spec fn enc_arr_vals(
    g: Seq<(Timestamp, NodeV)>,
    m: IdMode,
    st: EncSt,
    atoms: Seq<(Timestamp, Option<Timestamp>)>,
    b: Seq<(int, int)>,
    c: nat,
    k: int,
    fuel: nat,
) -> Enc
    decreases fuel, b.len() - c, b[c as int].1 - k + 1,
{
    if c >= b.len() || k > b[c as int].1 {
        Enc::Done(st)
    } else if k == b[c as int].1 {
        enc_arr(g, m, st, atoms, b, c + 1, fuel)
    } else {
        match atoms[k].1 {
            Some(v) => match enc_node(g, m, st, v, fuel) {
                Enc::Done(s2) => enc_arr_vals(g, m, s2, atoms, b, c, k + 1, fuel),
                other => other,
            },
            None => enc_arr_vals(g, m, st, atoms, b, c, k + 1, fuel),
        }
    }
}


// ---------------------------------------------------------------------------
// Writing nodes
// ---------------------------------------------------------------------------

proof fn lemma_put2(st: EncSt, a: Seq<u8>, b: Seq<u8>)
    ensures
        put(put(st, a), b) == put(st, a + b),
{
    assert(st.out + a + b =~= st.out + (a + b));
}

/// The largest index of vector entries (0 for none).
pub(crate) fn entries_max(es: &Vec<(u64, Timestamp)>) -> (res: u64)
    ensures
        res == max_index(es@),
{
    let mut m: u64 = 0;
    let mut i: usize = 0;
    while i < es.len()
        invariant
            i <= es@.len(),
            m == max_index(es@.take(i as int)),
        decreases es.len() - i,
    {
        assert(es@.take(i + 1).drop_last() =~= es@.take(i as int));
        if es[i].0 > m {
            m = es[i].0;
        }
        i = i + 1;
    }
    assert(es@.take(es@.len() as int) =~= es@);
    m
}

/// The child at index `k` of vector entries.
pub(crate) fn vec_lookup(es: &Vec<(u64, Timestamp)>, k: u64) -> (res: Option<Timestamp>)
    ensures
        res == vec_get(es@, k as int),
{
    let mut i: usize = 0;
    assert(es@.skip(0) =~= es@);
    while i < es.len()
        invariant
            i <= es@.len(),
            vec_get(es@, k as int) == vec_get(es@.skip(i as int), k as int),
        decreases es.len() - i,
    {
        assert(es@.skip(i as int)[0] == es@[i as int]);
        if es[i].0 == k {
            return Some(es[i].1);
        }
        assert(es@.skip(i as int).skip(1) =~= es@.skip(i + 1));
        i = i + 1;
    }
    None
}

pub(crate) fn str_keys(atoms: &Vec<StrAtom>) -> (res: Vec<(Timestamp, bool)>)
    ensures
        res@ == keys_of(str_atoms_view(atoms@)),
{
    let mut out: Vec<(Timestamp, bool)> = Vec::new();
    let mut i: usize = 0;
    while i < atoms.len()
        invariant
            i <= atoms.len(),
            out@ =~= keys_of(str_atoms_view(atoms@)).take(i as int),
        decreases atoms.len() - i,
    {
        out.push((atoms[i].slot, atoms[i].ch.is_some()));
        i = i + 1;
    }
    out
}

pub(crate) fn bin_keys(atoms: &Vec<BinAtom>) -> (res: Vec<(Timestamp, bool)>)
    ensures
        res@ == keys_of(bin_atoms_view(atoms@)),
{
    let mut out: Vec<(Timestamp, bool)> = Vec::new();
    let mut i: usize = 0;
    while i < atoms.len()
        invariant
            i <= atoms.len(),
            out@ =~= keys_of(bin_atoms_view(atoms@)).take(i as int),
        decreases atoms.len() - i,
    {
        out.push((atoms[i].slot, atoms[i].byte.is_some()));
        i = i + 1;
    }
    out
}

pub(crate) fn arr_keys(atoms: &Vec<ArrAtom>) -> (res: Vec<(Timestamp, bool)>)
    ensures
        res@ == keys_of(arr_atoms_view(atoms@)),
{
    let mut out: Vec<(Timestamp, bool)> = Vec::new();
    let mut i: usize = 0;
    while i < atoms.len()
        invariant
            i <= atoms.len(),
            out@ =~= keys_of(arr_atoms_view(atoms@)).take(i as int),
        decreases atoms.len() - i,
    {
        out.push((atoms[i].slot, atoms[i].value.is_some()));
        i = i + 1;
    }
    out
}

/// The characters still held by string slots `i..j`.
pub(crate) fn chunk_text(atoms: &Vec<StrAtom>, i: usize, j: usize) -> (res: String)
    requires
        i <= j <= atoms@.len(),
    ensures
        res@ == somes(str_atoms_view(atoms@).subrange(i as int, j as int)),
{
    let ghost v = str_atoms_view(atoms@);
    let mut text = String::new();
    let mut k: usize = i;
    assert(v.subrange(i as int, i as int) =~= Seq::<(Timestamp, Option<char>)>::empty());
    while k < j
        invariant
            i <= k <= j <= atoms@.len(),
            v == str_atoms_view(atoms@),
            text@ == somes(v.subrange(i as int, k as int)),
        decreases j - k,
    {
        assert(v.subrange(i as int, k + 1).drop_last() =~= v.subrange(i as int, k as int));
        assert(v.subrange(i as int, k + 1).last() == v[k as int]);
        if let Some(ch) = atoms[k].ch {
            text.push(ch);
        } else {
            assert(text@ =~= text@ + Seq::<char>::empty());
        }
        k = k + 1;
    }
    text
}

/// The bytes still held by binary slots `i..j`.
pub(crate) fn chunk_bytes(atoms: &Vec<BinAtom>, i: usize, j: usize) -> (res: Vec<u8>)
    requires
        i <= j <= atoms@.len(),
    ensures
        res@ == somes(bin_atoms_view(atoms@).subrange(i as int, j as int)),
{
    let ghost v = bin_atoms_view(atoms@);
    let mut out: Vec<u8> = Vec::new();
    let mut k: usize = i;
    assert(v.subrange(i as int, i as int) =~= Seq::<(Timestamp, Option<u8>)>::empty());
    while k < j
        invariant
            i <= k <= j <= atoms@.len(),
            v == bin_atoms_view(atoms@),
            out@ == somes(v.subrange(i as int, k as int)),
        decreases j - k,
    {
        assert(v.subrange(i as int, k + 1).drop_last() =~= v.subrange(i as int, k as int));
        assert(v.subrange(i as int, k + 1).last() == v[k as int]);
        if let Some(b) = atoms[k].byte {
            out.push(b);
            assert(out@ =~= somes(v.subrange(i as int, k as int)) + seq![b]);
        } else {
            assert(out@ =~= out@ + Seq::<u8>::empty());
        }
        k = k + 1;
    }
    out
}

impl Encoder {
    fn write_json(&mut self, v: &JsonValue)
        ensures
            final(self).st() == put(old(self).st(), json_cbor_bytes(v.jv())),
            final(self).mode() == old(self).mode(),
    {
        write_cbor_json(&mut self.out, v);
    }

    fn write_text(&mut self, t: &str)
        ensures
            final(self).st() == put(old(self).st(), cbor_text_bytes(t@)),
            final(self).mode() == old(self).mode(),
    {
        write_cbor_text(&mut self.out, t);
    }

    fn write_uint(&mut self, v: u64)
        ensures
            final(self).st() == put(old(self).st(), cbor_uint_bytes(0, v)),
            final(self).mode() == old(self).mode(),
    {
        write_cbor_uint(&mut self.out, 0, v);
    }

    fn write_b1(&mut self, flag: u8, v: u64)
        ensures
            final(self).st() == put(old(self).st(), b1vu56_bytes(flag, v)),
            final(self).mode() == old(self).mode(),
    {
        write_b1vu56(&mut self.out, flag, v);
    }

    fn write_type_len(&mut self, major: u8, len: u64)
        requires
            major < 8,
        ensures
            final(self).st() == put(old(self).st(), type_len(major, len)),
            final(self).mode() == old(self).mode(),
    {
        if len < 31 {
            self.out.push(major * 32 + len as u8);
            assert(self.out@ =~= old(self).out@ + type_len(major, len));
        } else {
            self.out.push(major * 32 + 31);
            write_vu57(&mut self.out, len);
            assert(self.out@ =~= old(self).out@ + type_len(major, len));
        }
    }
}


impl RuntimeModel {
    /// Writes node `id` and the nodes under it, at most `fuel` levels deep.
    #[verifier::rlimit(60)]
    fn encode_node(&self, e: &mut Encoder, id: Timestamp, fuel: usize) -> (res: Result<(), EncFail>)
        ensures
            final(e).mode() == old(e).mode(),
            match enc_node(store_view(self.nodes@), old(e).mode(), old(e).st(), id, fuel as nat) {
                Enc::Done(st) => res is Ok && final(e).st() == st,
                other => res matches Err(f) && fail_of(f) == other,
            },
        decreases fuel,
    {
        let ghost g = store_view(self.nodes@);
        let ghost m = e.mode();
        let ghost total = enc_node(g, m, e.st(), id, fuel as nat);
        if fuel == 0 {
            return Err(EncFail::Stuck);
        }
        let p = self.find_node(id);
        if p >= self.nodes.len() {
            return Err(EncFail::Model(ModelError::InvalidModelBinary));
        }
        proof {
            assert(has_node(g, id));
            assert(g[p as int] == (self.nodes@[p as int].0, self.nodes@[p as int].1.nv()));
            assert(node_at(g, id) == self.nodes@[p as int].1.nv());
        }
        match e.encode_id(id) {
            Ok(()) => {},
            Err(x) => {
                return Err(x);
            },
        }
        let ghost s1 = e.st();
        let f = fuel - 1;
        match &self.nodes[p].1 {
            RuntimeNode::Con(ConCell::Json(v)) => {
                e.put_byte(0);
                e.write_json(v);
                proof {
                    lemma_put2(s1, seq![0u8], json_cbor_bytes(v.jv()));
                }
                Ok(())
            },
            RuntimeNode::Con(ConCell::Ref(r)) => {
                e.put_byte(1);
                e.encode_id(*r)
            },
            RuntimeNode::Con(ConCell::Undef) => {
                e.put_byte(0);
                e.put_byte(0xf7);
                proof {
                    lemma_put2(s1, seq![0u8], seq![0xf7u8]);
                    assert(seq![0u8] + seq![0xf7u8] =~= seq![0u8, 0xf7u8]);
                }
                Ok(())
            },
            RuntimeNode::Val(c) => {
                e.put_byte(0x20);
                self.encode_node(e, *c, f)
            },
            RuntimeNode::Obj(es) => {
                let ghost ev = obj_entries_view(es@);
                e.write_type_len(2, es.len() as u64);
                                let mut i: usize = 0;
                while i < es.len()
                    invariant
                        i <= es@.len(),
                        ev == obj_entries_view(es@),
                        g == store_view(self.nodes@),
                        e.mode() == m,
                        fuel > 0,
                        f as int == fuel - 1,
                        m == old(e).mode(),
                        total == enc_node(store_view(self.nodes@), old(e).mode(), old(e).st(), id, fuel as nat),
                        total == enc_obj(g, m, e.st(), ev, i as nat, f as nat),
                    decreases es.len() - i,
                {
                    let ghost before = e.st();
                    e.write_text(es[i].0.as_str());
                    match self.encode_node(e, es[i].1, f) {
                        Ok(()) => {},
                        Err(x) => {
                            return Err(x);
                        },
                    }
                    i = i + 1;
                }
                Ok(())
            },
            RuntimeNode::Vec(es) => {
                let ghost ev = es@;
                let mut len: u64 = 0;
                if es.len() > 0 {
                    let mx = entries_max(es);
                    if mx == 0xffff_ffff_ffff_ffffu64 {
                        return Err(EncFail::Stuck);
                    }
                    len = mx + 1;
                }
                e.write_type_len(3, len);
                                let mut i: u64 = 0;
                while i < len
                    invariant
                        i <= len,
                        ev == es@,
                        g == store_view(self.nodes@),
                        e.mode() == m,
                        fuel > 0,
                        f as int == fuel - 1,
                        m == old(e).mode(),
                        total == enc_node(store_view(self.nodes@), old(e).mode(), old(e).st(), id, fuel as nat),
                        total == enc_vec(g, m, e.st(), ev, i as nat, len as nat, f as nat),
                    decreases len - i,
                {
                    match vec_lookup(es, i) {
                        Some(t) => {
                            match self.encode_node(e, t, f) {
                                Ok(()) => {},
                                Err(x) => {
                                    return Err(x);
                                },
                            }
                        },
                        None => {
                            e.put_byte(0);
                        },
                    }
                    i = i + 1;
                }
                Ok(())
            },
            RuntimeNode::Str(atoms) => {
                let ghost av = str_atoms_view(atoms@);
                let keys = str_keys(atoms);
                let b = chunks_of(&keys);
                let ghost bv = chunk_bounds(keys@, 0);
                proof {
                    lemma_chunks_in(keys@, 0);
                }
                e.write_type_len(4, b.len() as u64);
                                let mut c: usize = 0;
                while c < b.len()
                    invariant
                        c <= b@.len(),
                        b@.len() == bv.len(),
                        forall|q: int| 0 <= q < b@.len() ==> (#[trigger] b@[q]).0 as int == bv[q].0 && b@[q].1 as int == bv[q].1,
                        forall|q: int| 0 <= q < bv.len() ==> 0 <= (#[trigger] bv[q]).0 < bv[q].1 <= av.len(),
                        av == str_atoms_view(atoms@),
                        av.len() == atoms@.len(),
                        e.mode() == m,
                        fuel > 0,
                        f as int == fuel - 1,
                        m == old(e).mode(),
                        total == enc_node(store_view(self.nodes@), old(e).mode(), old(e).st(), id, fuel as nat),
                        total == enc_str(m, e.st(), av, bv, c as nat),
                    decreases b.len() - c,
                {
                    let (i, j) = b[c];
                    assert(bv[c as int] == (i as int, j as int));
                    match e.encode_id(atoms[i].slot) {
                        Ok(()) => {},
                        Err(x) => {
                            return Err(x);
                        },
                    }
                    if atoms[i].ch.is_some() {
                        let text = chunk_text(atoms, i, j);
                        e.write_text(text.as_str());
                    } else {
                        e.write_uint((j - i) as u64);
                    }
                    c = c + 1;
                }
                Ok(())
            },
            RuntimeNode::Bin(atoms) => {
                let ghost av = bin_atoms_view(atoms@);
                let keys = bin_keys(atoms);
                let b = chunks_of(&keys);
                let ghost bv = chunk_bounds(keys@, 0);
                proof {
                    lemma_chunks_in(keys@, 0);
                }
                e.write_type_len(5, b.len() as u64);
                                let mut c: usize = 0;
                while c < b.len()
                    invariant
                        c <= b@.len(),
                        b@.len() == bv.len(),
                        forall|q: int| 0 <= q < b@.len() ==> (#[trigger] b@[q]).0 as int == bv[q].0 && b@[q].1 as int == bv[q].1,
                        forall|q: int| 0 <= q < bv.len() ==> 0 <= (#[trigger] bv[q]).0 < bv[q].1 <= av.len(),
                        av == bin_atoms_view(atoms@),
                        av.len() == atoms@.len(),
                        e.mode() == m,
                        fuel > 0,
                        f as int == fuel - 1,
                        m == old(e).mode(),
                        total == enc_node(store_view(self.nodes@), old(e).mode(), old(e).st(), id, fuel as nat),
                        total == enc_bin(m, e.st(), av, bv, c as nat),
                    decreases b.len() - c,
                {
                    let (i, j) = b[c];
                    assert(bv[c as int] == (i as int, j as int));
                    match e.encode_id(atoms[i].slot) {
                        Ok(()) => {},
                        Err(x) => {
                            return Err(x);
                        },
                    }
                    let ghost s2 = e.st();
                    if atoms[i].byte.is_some() {
                        let bytes = chunk_bytes(atoms, i, j);
                        e.write_b1(0, (j - i) as u64);
                        e.put_bytes(bytes.as_slice());
                        proof {
                            lemma_put2(s2, b1vu56_bytes(0, (j - i) as u64), bytes@);
                        }
                    } else {
                        e.write_b1(1, (j - i) as u64);
                    }
                    c = c + 1;
                }
                Ok(())
            },
            RuntimeNode::Arr(atoms) => {
                let ghost av = arr_atoms_view(atoms@);
                let keys = arr_keys(atoms);
                let b = chunks_of(&keys);
                let ghost bv = chunk_bounds(keys@, 0);
                proof {
                    lemma_chunks_in(keys@, 0);
                }
                e.write_type_len(6, b.len() as u64);
                                let mut c: usize = 0;
                while c < b.len()
                    invariant
                        c <= b@.len(),
                        b@.len() == bv.len(),
                        forall|q: int| 0 <= q < b@.len() ==> (#[trigger] b@[q]).0 as int == bv[q].0 && b@[q].1 as int == bv[q].1,
                        forall|q: int| 0 <= q < bv.len() ==> 0 <= (#[trigger] bv[q]).0 < bv[q].1 <= av.len(),
                        av == arr_atoms_view(atoms@),
                        av.len() == atoms@.len(),
                        g == store_view(self.nodes@),
                        e.mode() == m,
                        fuel > 0,
                        f as int == fuel - 1,
                        m == old(e).mode(),
                        total == enc_node(store_view(self.nodes@), old(e).mode(), old(e).st(), id, fuel as nat),
                        total == enc_arr(g, m, e.st(), av, bv, c as nat, f as nat),
                    decreases b.len() - c,
                {
                    let (i, j) = b[c];
                    assert(bv[c as int] == (i as int, j as int));
                    match e.encode_id(atoms[i].slot) {
                        Ok(()) => {},
                        Err(x) => {
                            return Err(x);
                        },
                    }
                    if atoms[i].value.is_some() {
                        e.write_b1(0, (j - i) as u64);
                        let mut k: usize = i;
                        while k < j
                            invariant
                                i <= k <= j <= atoms@.len(),
                                c < bv.len(),
                                bv[c as int] == (i as int, j as int),
                                av == arr_atoms_view(atoms@),
                                g == store_view(self.nodes@),
                                e.mode() == m,
                                fuel > 0,
                                f as int == fuel - 1,
                                m == old(e).mode(),
                                total == enc_node(store_view(self.nodes@), old(e).mode(), old(e).st(), id, fuel as nat),
                                total == enc_arr_vals(g, m, e.st(), av, bv, c as nat, k as int, f as nat),
                            decreases j - k,
                        {
                            if let Some(v) = atoms[k].value {
                                match self.encode_node(e, v, f) {
                                    Ok(()) => {},
                                    Err(x) => {
                                        return Err(x);
                                    },
                                }
                            }
                            k = k + 1;
                        }
                    } else {
                        e.write_b1(1, (j - i) as u64);
                    }
                    c = c + 1;
                }
                Ok(())
            },
        }
    }
}

/// The chunks lie within the slots, each nonempty and after the one before.
pub(crate) proof fn lemma_chunks_in(keys: Seq<(Timestamp, bool)>, i: int)
    requires
        0 <= i,
    ensures
        forall|q: int|
            0 <= q < chunk_bounds(keys, i).len() ==> i <= (#[trigger] chunk_bounds(keys, i)[q]).0 < chunk_bounds(
                keys,
                i,
            )[q].1 <= keys.len(),
    decreases keys.len() - i,
{
    if i < keys.len() {
        let j = run_end(keys, i + 1, 0);
        if !(j <= i || j > keys.len()) {
            lemma_chunks_in(keys, j);
            let b = chunk_bounds(keys, i);
            assert forall|q: int| 0 <= q < b.len() implies i <= (#[trigger] b[q]).0 < b[q].1 <= keys.len() by {
                if q > 0 {
                    assert(b[q] == chunk_bounds(keys, j)[q - 1]);
                }
            }
        }
    }
}


// ---------------------------------------------------------------------------
// Model binaries
// ---------------------------------------------------------------------------

/// The session table's entries, each as `vu57` session and time.
pub open spec fn table_bytes(t: Seq<LogicalClockBase>) -> Seq<u8>
    decreases t.len(),
{
    if t.len() == 0 {
        Seq::empty()
    } else {
        table_bytes(t.drop_last()) + vu57_bytes(t.last().sid) + vu57_bytes(t.last().time)
    }
}

/// What encoding a model gives: its bytes, a failure, or nothing (a
/// reference cycle, or a number past its type's range).
pub enum ModelBin {
    Bytes(Seq<u8>),
    Fail(ModelError),
    Stuck,
}

/// How deep node writing may go in a store of `n` nodes.
pub open spec fn depth_for(n: nat) -> nat {
    if n < usize::MAX {
        n + 1
    } else {
        n
    }
}

/// Writes the root's node tree, or a zero byte when there is no root.
pub open spec fn encode_root(g: Seq<(Timestamp, NodeV)>, root: Option<Timestamp>, m: IdMode, st0: EncSt) -> Enc {
    match root {
        Some(r) => enc_node(g, m, st0, r, depth_for(g.len())),
        None => Enc::Done(put(st0, seq![0u8])),
    }
}

/// A logical-clock model binary: the length of the root part as four
/// big-endian bytes, the root part, then the session table that its
/// identifiers refer to.
pub open spec fn logical_binary(
    g: Seq<(Timestamp, NodeV)>,
    root: Option<Timestamp>,
    ct: Seq<LogicalClockBase>,
    ends: Set<(u64, u64)>,
) -> ModelBin {
    if ct.len() == 0 {
        ModelBin::Fail(ModelError::InvalidClockTable)
    } else {
        let st0 = EncSt {
            out: Seq::empty(),
            table: seq![LogicalClockBase { sid: ct[0].sid, time: sat_sub(local_time_of(ct, ends), 1) }],
        };
        match encode_root(g, root, logical_mode(ct, ends), st0) {
            Enc::Done(st) => ModelBin::Bytes(
                be32(st.out.len() as u32) + st.out + vu57_bytes(st.table.len() as u64) + table_bytes(st.table),
            ),
            Enc::Fail(e) => ModelBin::Fail(e),
            Enc::Stuck => ModelBin::Stuck,
        }
    }
}

/// A server-clock model binary: the flag byte, the server time, then the
/// root part with bare times.
pub open spec fn server_binary(g: Seq<(Timestamp, NodeV)>, root: Option<Timestamp>, t: u64) -> ModelBin {
    let st0 = EncSt { out: seq![0x80u8] + vu57_bytes(t), table: Seq::empty() };
    match encode_root(g, root, IdMode::Server, st0) {
        Enc::Done(st) => ModelBin::Bytes(st.out),
        Enc::Fail(e) => ModelBin::Fail(e),
        Enc::Stuck => ModelBin::Stuck,
    }
}

fn fail_to_model(f: EncFail) -> (res: Option<Result<Vec<u8>, ModelError>>)
    ensures
        match f {
            EncFail::Model(e) => res == Some(Err::<Vec<u8>, ModelError>(e)),
            EncFail::Stuck => res is None,
        },
{
    match f {
        EncFail::Model(e) => Some(Err(e)),
        EncFail::Stuck => None,
    }
}

/// The root part behind its length, then the session table.
fn assemble_logical(root: &Vec<u8>, table: &Vec<LogicalClockBase>) -> (res: Vec<u8>)
    ensures
        res@ == be32(root@.len() as u32) + root@ + vu57_bytes(table@.len() as u64) + table_bytes(table@),
{
    let root_len = root.len() as u32;
    let mut out: Vec<u8> = Vec::new();
    out.push((root_len / 0x1000000) as u8);
    out.push((root_len / 0x10000 % 0x100) as u8);
    out.push((root_len / 0x100 % 0x100) as u8);
    out.push((root_len % 0x100) as u8);
    assert(out@ =~= be32(root_len));
    let mut i: usize = 0;
    let ghost head = out@;
    while i < root.len()
        invariant
            i <= root@.len(),
            out@ == head + root@.take(i as int),
        decreases root.len() - i,
    {
        out.push(root[i]);
        assert(root@.take(i + 1) =~= root@.take(i as int).push(root@[i as int]));
        i = i + 1;
    }
    assert(root@.take(root@.len() as int) =~= root@);
    write_vu57(&mut out, table.len() as u64);
    let ghost mid = out@;
    let mut k: usize = 0;
    assert(table@.take(0) =~= Seq::<LogicalClockBase>::empty());
    while k < table.len()
        invariant
            k <= table@.len(),
            out@ =~= mid + table_bytes(table@.take(k as int)),
        decreases table.len() - k,
    {
        write_vu57(&mut out, table[k].sid);
        write_vu57(&mut out, table[k].time);
        assert(table@.take(k + 1).drop_last() =~= table@.take(k as int));
        k = k + 1;
    }
    assert(table@.take(table@.len() as int) =~= table@);
    out
}

impl RuntimeModel {
    /// The ends of the observed clock intervals, by session.
    pub closed spec fn spec_ends(&self) -> Set<(u64, u64)> {
        Set::new(|p: (u64, u64)| has_end(self.clock.observed@, p.0, p.1))
    }

    /// What encoding the model as a binary gives.
    pub open spec fn spec_model_binary(&self) -> ModelBin {
        match self.spec_server_time() {
            Some(t) => server_binary(self.graph().nodes, self.graph().root, t),
            None => logical_binary(self.graph().nodes, self.graph().root, self.spec_clock_table(), self.spec_ends()),
        }
    }

    /// Writes the root part with an encoder.
    fn encode_root_with(&self, e: &mut Encoder) -> (res: Result<(), EncFail>)
        ensures
            final(e).mode() == old(e).mode(),
            match encode_root(store_view(self.nodes@), self.root, old(e).mode(), old(e).st()) {
                Enc::Done(st) => res is Ok && final(e).st() == st,
                other => res matches Err(f) && fail_of(f) == other,
            },
    {
        match self.root {
            Some(r) => {
                let n = self.nodes.len();
                let depth = if n < usize::MAX {
                    n + 1
                } else {
                    n
                };
                self.encode_node(e, r, depth)
            },
            None => {
                e.put_byte(0);
                Ok(())
            },
        }
    }

    /// Encodes the model as a binary; `None` where encoding would never end
    /// (a reference cycle under the root, or a number past its type's
    /// range).
    #[verifier::rlimit(40)]
    pub fn model_binary_checked(&self) -> (res: Option<Result<Vec<u8>, ModelError>>)
        ensures
            match self.spec_model_binary() {
                ModelBin::Bytes(b) => res matches Some(Ok(v)) && v@ == b,
                ModelBin::Fail(err) => res == Some(Err::<Vec<u8>, ModelError>(err)),
                ModelBin::Stuck => res is None,
            },
    {
        proof {
            self.lemma_graph();
        }
        match self.server_clock_time {
            Some(t) => {
                let mut head: Vec<u8> = Vec::new();
                head.push(0x80);
                write_vu57(&mut head, t);
                assert(head@ =~= seq![0x80u8] + vu57_bytes(t));
                let mut e = Encoder {
                    out: head,
                    table: Vec::new(),
                    logical: false,
                    lt: 0,
                    ct: Vec::new(),
                    ends: Vec::new(),
                    ls: 0,
                };
                match self.encode_root_with(&mut e) {
                    Ok(()) => Some(Ok(e.out)),
                    Err(f) => fail_to_model(f),
                }
            },
            None => {
                if self.clock_table.len() == 0 {
                    return Some(Err(ModelError::InvalidClockTable));
                }
                let ends = self.clock.ends();
                proof {
                    assert(ends@.to_set() =~= self.spec_ends());
                }
                let lt = local_time(&self.clock_table, &ends);
                let ls = self.clock_table[0].sid;
                let mut table: Vec<LogicalClockBase> = Vec::new();
                table.push(LogicalClockBase { sid: ls, time: lt.saturating_sub(1) });
                let mut e = Encoder {
                    out: Vec::new(),
                    table,
                    logical: true,
                    lt,
                    ct: copy_vec(&self.clock_table),
                    ends,
                    ls,
                };
                assert(e.mode() == logical_mode(self.clock_table@, self.spec_ends()));
                match self.encode_root_with(&mut e) {
                    Ok(()) => {},
                    Err(f) => {
                        return fail_to_model(f);
                    },
                }
                Some(Ok(assemble_logical(&e.out, &e.table)))
            },
        }
    }

    /// Encodes the model as a binary: with a server clock, the server time
    /// and the root's nodes with bare times; else the root's nodes with
    /// identifiers relative to a session table, then that table.
    pub fn to_model_binary_like(&self) -> (res: Result<Vec<u8>, ModelError>)
        requires
            !(self.spec_model_binary() is Stuck),
        ensures
            match self.spec_model_binary() {
                ModelBin::Bytes(b) => res matches Ok(v) && v@ == b,
                ModelBin::Fail(err) => res == Err::<Vec<u8>, ModelError>(err),
                ModelBin::Stuck => false,
            },
    {
        match self.model_binary_checked() {
            Some(r) => r,
            None => Err(ModelError::InvalidModelBinary),
        }
    }
}

impl RuntimeModel {
    /// The clock table.
    pub(crate) fn clock_table_ref(&self) -> (res: &Vec<LogicalClockBase>)
        ensures
            res@ == self.spec_clock_table(),
    {
        &self.clock_table
    }

    /// The server clock time, for a server-clock model.
    pub(crate) fn server_time(&self) -> (res: Option<u64>)
        ensures
            res == self.spec_server_time(),
    {
        self.server_clock_time
    }

    /// The number of nodes in the store.
    pub(crate) fn node_count(&self) -> (res: usize)
        ensures
            res == self.graph().nodes.len(),
    {
        proof {
            self.lemma_graph();
        }
        self.nodes.len()
    }

    /// The node at position `k` of the store.
    pub(crate) fn node_entry(&self, k: usize) -> (res: (Timestamp, &RuntimeNode))
        requires
            k < self.graph().nodes.len(),
        ensures
            (res.0, res.1.nv()) == self.graph().nodes[k as int],
    {
        proof {
            self.lemma_graph();
        }
        (self.nodes[k].0, &self.nodes[k].1)
    }
    /// A logical-clock model with the node store, root and clock table, no
    /// clock range observed, and a null view where there is no root.
    pub(crate) fn from_parts(nodes: Vec<(Timestamp, RuntimeNode)>, root: Option<Timestamp>, clock_table: Vec<LogicalClockBase>) -> (res: RuntimeModel)
        ensures
            res.spec_model_binary() == logical_binary(store_view(nodes@), root, clock_table@, Set::<(u64, u64)>::empty()),
    {
        let res = RuntimeModel {
            nodes,
            root,
            clock: super::clock::ClockState::new(),
            fallback_view: JsonValue::Null,
            infer_empty_object_root: false,
            clock_table,
            server_clock_time: None,
        };
        proof {
            res.lemma_graph();
            assert(res.spec_ends() =~= Set::<(u64, u64)>::empty());
        }
        res
    }
}

} // verus!
