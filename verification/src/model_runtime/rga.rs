//! Where an RGA insertion goes: after its reference slot, past the slots
//! that were inserted after it by later operations.

use vstd::prelude::*;
use crate::patch::Timestamp;
use super::types::{id_lt, id_before, StrAtom, BinAtom, ArrAtom, str_atoms_view, bin_atoms_view, arr_atoms_view};

verus! {

/// The first position of `k` in `s` (the length when it is absent).
pub open spec fn seq_pos(s: Seq<Timestamp>, k: Timestamp) -> int
    decreases s.len(),
{
    if s.len() == 0 {
        0
    } else if s[0] == k {
        0
    } else {
        1 + seq_pos(s.drop_first(), k)
    }
}

/// `seq_pos` is the first position of the value, or the length.
pub proof fn lemma_seq_pos(s: Seq<Timestamp>, k: Timestamp)
    ensures
        0 <= seq_pos(s, k) <= s.len(),
        seq_pos(s, k) < s.len() ==> s[seq_pos(s, k)] == k,
        forall|j: int| 0 <= j < seq_pos(s, k) ==> s[j] != k,
    decreases s.len(),
{
    if s.len() > 0 && s[0] != k {
        lemma_seq_pos(s.drop_first(), k);
        assert forall|j: int| 0 <= j < seq_pos(s, k) implies s[j] != k by {
            if j > 0 {
                assert(s[j] == s.drop_first()[j - 1]);
            }
        }
    }
}

/// A scan from the front that stops at `i` finds `seq_pos`.
pub proof fn lemma_seq_pos_at(s: Seq<Timestamp>, k: Timestamp, i: int)
    requires
        0 <= i <= s.len(),
        i < s.len() ==> s[i] == k,
        forall|j: int| 0 <= j < i ==> s[j] != k,
    ensures
        seq_pos(s, k) == i,
{
    lemma_seq_pos(s, k);
}

/// The slots of a sequence of slot entries.
pub open spec fn slots_of<V>(atoms: Seq<(Timestamp, V)>) -> Seq<Timestamp> {
    atoms.map_values(|a: (Timestamp, V)| a.0)
}

/// From the slot at `left`, the position after it and after the slots that
/// follow it while they come after `id`; `None` when `id` itself is met.
pub open spec fn rga_scan(slots: Seq<Timestamp>, left: int, id: Timestamp) -> Option<int>
    decreases slots.len() - left,
{
    if left < 0 || left + 1 >= slots.len() {
        Some(left + 1)
    } else if slots[left + 1] == id {
        None
    } else if id_lt(slots[left + 1], id) {
        Some(left + 1)
    } else {
        rga_scan(slots, left + 1, id)
    }
}

/// Where an insertion with identifier `id` after `reference` goes among the
/// slots of the container `container` (a reference equal to the container
/// means the start); `None` when the reference is unknown or the insertion is
/// already there.
pub open spec fn rga_insert_index(
    slots: Seq<Timestamp>,
    reference: Timestamp,
    container: Timestamp,
    id: Timestamp,
) -> Option<int> {
    if reference == container {
        if slots.len() == 0 {
            Some(0)
        } else if id_lt(slots[0], id) {
            Some(0)
        } else if slots[0] == id {
            None
        } else {
            rga_scan(slots, 0, id)
        }
    } else {
        let p = seq_pos(slots, reference);
        if p >= slots.len() {
            None
        } else {
            rga_scan(slots, p, id)
        }
    }
}

/// The scan result lies after its start and within the slots.
proof fn lemma_rga_scan_range(slots: Seq<Timestamp>, left: int, id: Timestamp)
    requires
        0 <= left < slots.len(),
    ensures
        rga_scan(slots, left, id) matches Some(i) ==> left < i <= slots.len(),
    decreases slots.len() - left,
{
    if left + 1 < slots.len() && slots[left + 1] != id && !id_lt(slots[left + 1], id) {
        lemma_rga_scan_range(slots, left + 1, id);
    }
}

/// An insertion position, when there is one, lies within the slots.
pub proof fn lemma_rga_insert_index_range(
    slots: Seq<Timestamp>,
    reference: Timestamp,
    container: Timestamp,
    id: Timestamp,
)
    ensures
        rga_insert_index(slots, reference, container, id) matches Some(i) ==> 0 <= i
            <= slots.len(),
{
    lemma_seq_pos(slots, reference);
    if slots.len() > 0 {
        lemma_rga_scan_range(slots, 0, id);
        if seq_pos(slots, reference) < slots.len() {
            lemma_rga_scan_range(slots, seq_pos(slots, reference), id);
        }
    }
}

/// Where an insertion with identifier `id` after `reference` goes among the
/// slots of `container`.
pub fn find_insert_index_rga(slots: &Vec<Timestamp>, reference: Timestamp, container: Timestamp, id: Timestamp) -> (res: Option<usize>)
    ensures
        res matches Some(i) ==> i <= slots@.len(),
        match res {
            Some(i) => rga_insert_index(slots@, reference, container, id) == Some(i as int),
            None => rga_insert_index(slots@, reference, container, id) is None,
        },
{
    let mut left: usize;
    if reference == container {
        if slots.len() == 0 {
            return Some(0);
        }
        let first = slots[0];
        if id_before(first, id) {
            return Some(0);
        }
        if first == id {
            return None;
        }
        left = 0;
    } else {
        let mut p: usize = 0;
        while p < slots.len() && slots[p] != reference
            invariant
                p <= slots@.len(),
                forall|j: int| 0 <= j < p ==> slots@[j] != reference,
            decreases slots.len() - p,
        {
            p = p + 1;
        }
        proof {
            lemma_seq_pos_at(slots@, reference, p as int);
        }
        if p >= slots.len() {
            return None;
        }
        left = p;
    }
    loop
        invariant
            left < slots@.len(),
            rga_insert_index(slots@, reference, container, id) == rga_scan(slots@, left as int, id),
        decreases slots.len() - left,
    {
        let right = left + 1;
        if right >= slots.len() {
            return Some(right);
        }
        let right_id = slots[right];
        if right_id == id {
            return None;
        }
        if id_before(right_id, id) {
            return Some(right);
        }
        left = right;
    }
}

/// The slots of string atoms.
pub fn str_slots(atoms: &Vec<StrAtom>) -> (res: Vec<Timestamp>)
    ensures
        res@ == slots_of(str_atoms_view(atoms@)),
{
    let mut out: Vec<Timestamp> = Vec::new();
    let mut i: usize = 0;
    while i < atoms.len()
        invariant
            i <= atoms@.len(),
            out@ =~= slots_of(str_atoms_view(atoms@)).take(i as int),
        decreases atoms.len() - i,
    {
        out.push(atoms[i].slot);
        i = i + 1;
    }
    out
}

/// The slots of binary atoms.
pub fn bin_slots(atoms: &Vec<BinAtom>) -> (res: Vec<Timestamp>)
    ensures
        res@ == slots_of(bin_atoms_view(atoms@)),
{
    let mut out: Vec<Timestamp> = Vec::new();
    let mut i: usize = 0;
    while i < atoms.len()
        invariant
            i <= atoms@.len(),
            out@ =~= slots_of(bin_atoms_view(atoms@)).take(i as int),
        decreases atoms.len() - i,
    {
        out.push(atoms[i].slot);
        i = i + 1;
    }
    out
}

/// The slots of array atoms.
pub fn arr_slots(atoms: &Vec<ArrAtom>) -> (res: Vec<Timestamp>)
    ensures
        res@ == slots_of(arr_atoms_view(atoms@)),
{
    let mut out: Vec<Timestamp> = Vec::new();
    let mut i: usize = 0;
    while i < atoms.len()
        invariant
            i <= atoms@.len(),
            out@ =~= slots_of(arr_atoms_view(atoms@)).take(i as int),
        decreases atoms.len() - i,
    {
        out.push(atoms[i].slot);
        i = i + 1;
    }
    out
}


/// The first position of a slot among slot entries is its first position
/// among their slots.
pub proof fn lemma_pos_of_slots<V>(atoms: Seq<(Timestamp, V)>, k: Timestamp)
    ensures
        crate::model_runtime::types::pos_of(atoms, k) == seq_pos(slots_of(atoms), k),
    decreases atoms.len(),
{
    if atoms.len() > 0 {
        assert(slots_of(atoms)[0] == atoms[0].0);
        assert(slots_of(atoms).drop_first() =~= slots_of(atoms.drop_first()));
        lemma_pos_of_slots(atoms.drop_first(), k);
    }
}

/// The first position of `k` among the slots.
pub fn slot_index(slots: &Vec<Timestamp>, k: Timestamp) -> (res: usize)
    ensures
        res == seq_pos(slots@, k),
{
    let mut i: usize = 0;
    while i < slots.len() && slots[i] != k
        invariant
            i <= slots@.len(),
            forall|j: int| 0 <= j < i ==> slots@[j] != k,
        decreases slots.len() - i,
    {
        i = i + 1;
    }
    proof {
        lemma_seq_pos_at(slots@, k, i as int);
    }
    i
}

/// `v` with `ins` spliced in at position `idx`.
pub fn splice_vec<T: Copy>(v: &Vec<T>, idx: usize, ins: &Vec<T>) -> (res: Vec<T>)
    requires
        idx <= v@.len(),
    ensures
        res@ == v@.take(idx as int) + ins@ + v@.skip(idx as int),
{
    let mut out: Vec<T> = Vec::new();
    let mut i: usize = 0;
    while i < idx
        invariant
            i <= idx <= v@.len(),
            out@ =~= v@.take(i as int),
        decreases idx - i,
    {
        out.push(v[i]);
        i = i + 1;
    }
    let mut j: usize = 0;
    while j < ins.len()
        invariant
            j <= ins@.len(),
            idx <= v@.len(),
            out@ =~= v@.take(idx as int) + ins@.take(j as int),
        decreases ins.len() - j,
    {
        out.push(ins[j]);
        j = j + 1;
    }
    let mut k: usize = idx;
    while k < v.len()
        invariant
            idx <= k <= v@.len(),
            out@ =~= v@.take(idx as int) + ins@ + v@.subrange(idx as int, k as int),
        decreases v.len() - k,
    {
        out.push(v[k]);
        k = k + 1;
    }
    out
}

/// The scan from the slot at `left`: the position it gives lies after
/// `left`, every slot passed over is newer than `id`, and the slot found
/// there (if any) is older; it gives a position whenever `id` is not among
/// the slots after `left`.
proof fn lemma_scan_placement(slots: Seq<Timestamp>, left: int, id: Timestamp)
    requires
        0 <= left < slots.len(),
    ensures
        rga_scan(slots, left, id) matches Some(i) ==> left < i <= slots.len()
            && (forall|j: int| left < j < i ==> id_lt(id, #[trigger] slots[j]))
            && (i < slots.len() ==> id_lt(slots[i], id)),
        (forall|j: int| left < j < slots.len() ==> #[trigger] slots[j] != id) ==> rga_scan(slots, left, id) is Some,
    decreases slots.len() - left,
{
    if left + 1 < slots.len() && slots[left + 1] != id && !id_lt(slots[left + 1], id) {
        lemma_scan_placement(slots, left + 1, id);
        assert(id_lt(id, slots[left + 1]));
    }
}

/// Law (RGA placement): an insertion with identifier `id` after the slot
/// `reference` (the container itself meaning the start) goes right after
/// that slot, past exactly the slots that follow it and are newer than
/// `id`: every slot it passes over is newer, and the slot it lands before,
/// if any, is older. So when the slot right after the reference is older,
/// the insertion lands right after the reference. It is placed whenever the
/// reference is known and `id` is not already among the slots; an unknown
/// reference places nothing.
pub proof fn lemma_rga_placement(slots: Seq<Timestamp>, reference: Timestamp, container: Timestamp, id: Timestamp)
    ensures
        ({
            let start = if reference == container { -1 } else { seq_pos(slots, reference) };
            &&& rga_insert_index(slots, reference, container, id) matches Some(i) ==> start < i <= slots.len()
                && (reference != container ==> slots[start] == reference
                    && forall|j: int| 0 <= j < start ==> slots[j] != reference)
                && (forall|j: int| start < j < i ==> id_lt(id, #[trigger] slots[j]))
                && (i < slots.len() ==> id_lt(slots[i], id))
            &&& (reference == container || slots.contains(reference)) && !slots.contains(id)
                ==> rga_insert_index(slots, reference, container, id) is Some
            &&& reference != container && !slots.contains(reference) ==> rga_insert_index(slots, reference, container, id) is None
        }),
{
    lemma_seq_pos(slots, reference);
    if !slots.contains(id) {
        assert forall|j: int| 0 <= j < slots.len() implies #[trigger] slots[j] != id by {
            if slots[j] == id {
                assert(slots.contains(id));
            }
        }
    }
    if reference == container {
        if slots.len() > 0 && !id_lt(slots[0], id) && slots[0] != id {
            lemma_scan_placement(slots, 0, id);
            assert(id_lt(id, slots[0]));
        }
    } else {
        let p = seq_pos(slots, reference);
        if p < slots.len() {
            lemma_scan_placement(slots, p, id);
        } else if slots.contains(reference) {
            let j = choose|j: int| 0 <= j < slots.len() && slots[j] == reference;
            assert(slots[j] != reference);
        }
    }
}

} // verus!
