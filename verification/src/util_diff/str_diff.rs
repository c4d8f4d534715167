//! Text diffs over UTF-16 code units: patches of equal, inserted and deleted
//! runs, their normalization, application and common affixes.

use vstd::prelude::*;
use crate::text::{
    from_utf16, lemma_utf16_of_concat, utf16_of, utf16_units, utf16_decode, is_high_surrogate,
    is_low_surrogate, lemma_utf16_wf, lemma_split_chars, lemma_decode_units_len,
    lemma_utf16_roundtrip, str_chars, chars_to_string, no_surrogates, bmp_chars, lemma_bmp_decode,
    lemma_bmp_chars_eq,
};

verus! {

/// The kind of a run in a text patch.
#[derive(Debug, Clone, Copy, PartialEq, Eq, Structural)]
pub enum PatchOpType {
    Del,
    Eql,
    Ins,
}

/// One run of a text patch.
pub type PatchOperation = (PatchOpType, String);

/// A text patch: runs in order.
pub type Patch = Vec<PatchOperation>;

/// A run with its text as characters.
pub open spec fn op_view(op: PatchOperation) -> (PatchOpType, Seq<char>) {
    (op.0, op.1@)
}

/// The runs with their texts as characters.
pub open spec fn patch_view(p: Seq<PatchOperation>) -> Seq<(PatchOpType, Seq<char>)> {
    p.map_values(|op: PatchOperation| op_view(op))
}

/// The source text of a patch: its equal and deleted runs.
pub open spec fn patch_src(p: Seq<(PatchOpType, Seq<char>)>) -> Seq<char>
    decreases p.len(),
{
    if p.len() == 0 {
        Seq::empty()
    } else {
        patch_src(p.drop_last()) + if p.last().0 != PatchOpType::Ins {
            p.last().1
        } else {
            Seq::empty()
        }
    }
}

/// The destination text of a patch: its equal and inserted runs.
pub open spec fn patch_dst(p: Seq<(PatchOpType, Seq<char>)>) -> Seq<char>
    decreases p.len(),
{
    if p.len() == 0 {
        Seq::empty()
    } else {
        patch_dst(p.drop_last()) + if p.last().0 != PatchOpType::Del {
            p.last().1
        } else {
            Seq::empty()
        }
    }
}

/// The patch with insertions and deletions swapped.
pub open spec fn patch_invert(p: Seq<(PatchOpType, Seq<char>)>) -> Seq<(PatchOpType, Seq<char>)> {
    p.map_values(
        |op: (PatchOpType, Seq<char>)|
            (
                match op.0 {
                    PatchOpType::Ins => PatchOpType::Del,
                    PatchOpType::Del => PatchOpType::Ins,
                    PatchOpType::Eql => PatchOpType::Eql,
                },
                op.1,
            ),
    )
}

/// Runs merged: empty runs dropped, neighbours of one kind joined.
pub open spec fn merge_runs(p: Seq<(PatchOpType, Seq<char>)>) -> Seq<(PatchOpType, Seq<char>)>
    decreases p.len(),
{
    if p.len() == 0 {
        p
    } else {
        let r = merge_runs(p.drop_last());
        let op = p.last();
        if op.1.len() == 0 {
            r
        } else if r.len() > 0 && r.last().0 == op.0 {
            r.update(r.len() - 1, (op.0, r.last().1 + op.1))
        } else {
            r.push(op)
        }
    }
}

/// What `normalize` gives: patches of fewer than two runs are kept as they
/// are, others have their runs merged.
pub open spec fn spec_normalize(p: Seq<(PatchOpType, Seq<char>)>) -> Seq<(PatchOpType, Seq<char>)> {
    if p.len() < 2 {
        p
    } else {
        merge_runs(p)
    }
}

/// Runs are nonempty and neighbours differ in kind.
pub open spec fn is_merged(p: Seq<(PatchOpType, Seq<char>)>) -> bool {
    &&& forall|i: int| 0 <= i < p.len() ==> (#[trigger] p[i]).1.len() > 0
    &&& forall|i: int| 0 < i < p.len() ==> (#[trigger] p[i]).0 != p[i - 1].0
}

proof fn lemma_merge_runs_merged(p: Seq<(PatchOpType, Seq<char>)>)
    requires
        is_merged(p),
    ensures
        merge_runs(p) == p,
    decreases p.len(),
{
    if p.len() > 0 {
        let q = p.drop_last();
        assert(is_merged(q)) by {
            assert forall|i: int| 0 < i < q.len() implies (#[trigger] q[i]).0 != q[i - 1].0 by {
                assert(q[i] == p[i] && q[i - 1] == p[i - 1]);
            }
            assert forall|i: int| 0 <= i < q.len() implies (#[trigger] q[i]).1.len() > 0 by {
                assert(q[i] == p[i]);
            }
        }
        lemma_merge_runs_merged(q);
        assert(p.last().1.len() > 0) by {
            assert(p[p.len() - 1] == p.last());
        }
        if q.len() > 0 {
            assert(q.last() == p[p.len() - 2]);
            assert(p[p.len() - 1].0 != p[p.len() - 2].0);
        }
        assert(q.push(p.last()) =~= p);
    }
}

proof fn lemma_merge_runs_src_dst(p: Seq<(PatchOpType, Seq<char>)>)
    ensures
        patch_src(merge_runs(p)) == patch_src(p),
        patch_dst(merge_runs(p)) == patch_dst(p),
    decreases p.len(),
{
    if p.len() > 0 {
        let q = p.drop_last();
        let r = merge_runs(q);
        let op = p.last();
        lemma_merge_runs_src_dst(q);
        if op.1.len() == 0 {
            assert(patch_src(p) =~= patch_src(q));
            assert(patch_dst(p) =~= patch_dst(q));
        } else if r.len() > 0 && r.last().0 == op.0 {
            let m = r.update(r.len() - 1, (op.0, r.last().1 + op.1));
            assert(m.drop_last() =~= r.drop_last());
            assert(m.last() == (op.0, r.last().1 + op.1));
            assert(patch_src(m) =~= patch_src(r) + if op.0 != PatchOpType::Ins {
                op.1
            } else {
                Seq::empty()
            });
            assert(patch_dst(m) =~= patch_dst(r) + if op.0 != PatchOpType::Del {
                op.1
            } else {
                Seq::empty()
            });
        } else {
            assert(r.push(op).drop_last() =~= r);
        }
    }
}

/// Normalization keeps the source and destination texts.
pub proof fn lemma_normalize_keeps_texts(p: Seq<(PatchOpType, Seq<char>)>)
    ensures
        patch_src(spec_normalize(p)) == patch_src(p),
        patch_dst(spec_normalize(p)) == patch_dst(p),
{
    lemma_merge_runs_src_dst(p);
}

/// Drops empty runs and joins neighbouring runs of one kind; patches of fewer
/// than two runs are returned unchanged.
pub fn normalize(patch: Patch) -> (res: Patch)
    ensures
        patch_view(res@) == spec_normalize(patch_view(patch@)),
{
    let length = patch.len();
    if length < 2 {
        return patch;
    }
    let ghost pv = patch_view(patch@);
    let mut i: usize = 0;
    let mut normalized_already = true;
    if patch[0].1.as_str().unicode_len() == 0 {
        normalized_already = false;
    } else {
        i = 1;
        while i < length && normalized_already
            invariant
                1 <= i <= length,
                length == patch@.len(),
                pv == patch_view(patch@),
                is_merged(pv.take(i as int)),
            decreases length - i + if normalized_already {
                1int
            } else {
                0int
            },
        {
            let same = patch[i - 1].0 == patch[i].0;
            if patch[i].1.as_str().unicode_len() == 0 || same {
                normalized_already = false;
                continue;
            }
            proof {
                let t = pv.take(i + 1);
                assert forall|k: int| 0 <= k < t.len() implies (#[trigger] t[k]).1.len() > 0 by {
                    if k < i {
                        assert(t[k] == pv.take(i as int)[k]);
                    }
                }
                assert forall|k: int| 0 < k < t.len() implies (#[trigger] t[k]).0 != t[k - 1].0 by {
                    if k < i {
                        assert(t[k] == pv.take(i as int)[k]);
                        assert(t[k - 1] == pv.take(i as int)[k - 1]);
                    }
                }
            }
            i = i + 1;
        }
    }
    proof {
        if i == 0 {
            assert(pv.take(0) =~= Seq::<(PatchOpType, Seq<char>)>::empty());
        } else {
            assert(is_merged(pv.take(i as int)));
        }
    }
    if normalized_already {
        proof {
            assert(pv.take(i as int) =~= pv);
            lemma_merge_runs_merged(pv);
        }
        return patch;
    }
    let mut normalized: Patch = Vec::new();
    let mut k: usize = 0;
    while k < i
        invariant
            k <= i <= length,
            length == patch@.len(),
            pv == patch_view(patch@),
            patch_view(normalized@) == pv.take(k as int),
        decreases i - k,
    {
        let op = (patch[k].0, patch[k].1.clone());
        let ghost before = normalized@;
        normalized.push(op);
        proof {
            assert(op_view(op) == pv[k as int]);
            assert(patch_view(normalized@) =~= patch_view(before).push(op_view(op)));
            assert(pv.take(k + 1) =~= pv.take(k as int).push(pv[k as int]));
        }
        k = k + 1;
    }
    proof {
        lemma_merge_runs_merged(pv.take(i as int));
    }
    let mut j: usize = i;
    while j < length
        invariant
            i <= j <= length,
            length == patch@.len(),
            pv == patch_view(patch@),
            patch_view(normalized@) == merge_runs(pv.take(j as int)),
        decreases length - j,
    {
        let ghost q = pv.take(j as int);
        proof {
            assert(pv.take(j + 1).drop_last() =~= q);
            assert(pv.take(j + 1).last() == pv[j as int]);
        }
        let ty = patch[j].0;
        if patch[j].1.as_str().unicode_len() == 0 {
        } else {
            let n = normalized.len();
            if n > 0 && normalized[n - 1].0 == ty {
                let mut merged = normalized[n - 1].1.clone();
                merged.append(patch[j].1.as_str());
                let ghost before = normalized@;
                normalized.set(n - 1, (ty, merged));
                proof {
                    assert(patch_view(normalized@) =~= patch_view(before).update(
                        n - 1,
                        (ty, patch_view(before).last().1 + pv[j as int].1),
                    ));
                }
            } else {
                let ghost before = normalized@;
                normalized.push((ty, patch[j].1.clone()));
                proof {
                    assert(patch_view(normalized@) =~= patch_view(before).push(pv[j as int]));
                }
            }
        }
        j = j + 1;
    }
    proof {
        assert(pv.take(j as int) =~= pv);
    }
    normalized
}

/// The source text of a patch: its equal and deleted runs.
pub fn src(patch: &Patch) -> (res: String)
    ensures
        res@ == patch_src(patch_view(patch@)),
{
    let ghost pv = patch_view(patch@);
    let mut txt = String::new();
    let mut i: usize = 0;
    while i < patch.len()
        invariant
            i <= patch.len(),
            pv == patch_view(patch@),
            txt@ == patch_src(pv.take(i as int)),
        decreases patch.len() - i,
    {
        proof {
            assert(pv.take(i + 1).drop_last() =~= pv.take(i as int));
            assert(pv.take(i + 1).last() == pv[i as int]);
        }
        if patch[i].0 != PatchOpType::Ins {
            txt.append(patch[i].1.as_str());
        } else {
            assert(txt@ + Seq::<char>::empty() =~= txt@);
        }
        i = i + 1;
    }
    assert(pv.take(i as int) =~= pv);
    txt
}

/// The destination text of a patch: its equal and inserted runs.
pub fn dst(patch: &Patch) -> (res: String)
    ensures
        res@ == patch_dst(patch_view(patch@)),
{
    let ghost pv = patch_view(patch@);
    let mut txt = String::new();
    let mut i: usize = 0;
    while i < patch.len()
        invariant
            i <= patch.len(),
            pv == patch_view(patch@),
            txt@ == patch_dst(pv.take(i as int)),
        decreases patch.len() - i,
    {
        proof {
            assert(pv.take(i + 1).drop_last() =~= pv.take(i as int));
            assert(pv.take(i + 1).last() == pv[i as int]);
        }
        if patch[i].0 != PatchOpType::Del {
            txt.append(patch[i].1.as_str());
        } else {
            assert(txt@ + Seq::<char>::empty() =~= txt@);
        }
        i = i + 1;
    }
    assert(pv.take(i as int) =~= pv);
    txt
}

/// The patch with insertions and deletions swapped.
pub fn invert(patch: &Patch) -> (res: Patch)
    ensures
        patch_view(res@) == patch_invert(patch_view(patch@)),
{
    let mut out: Patch = Vec::new();
    let mut i: usize = 0;
    while i < patch.len()
        invariant
            i <= patch.len(),
            patch_view(out@) == patch_invert(patch_view(patch@)).take(i as int),
        decreases patch.len() - i,
    {
        let t = match patch[i].0 {
            PatchOpType::Eql => PatchOpType::Eql,
            PatchOpType::Ins => PatchOpType::Del,
            PatchOpType::Del => PatchOpType::Ins,
        };
        let op = (t, patch[i].1.clone());
        let ghost before = out@;
        out.push(op);
        proof {
            let inv = patch_invert(patch_view(patch@));
            assert(op_view(op) == inv[i as int]);
            assert(patch_view(out@) =~= patch_view(before).push(op_view(op)));
            assert(inv.take(i + 1) =~= inv.take(i as int).push(inv[i as int]));
        }
        i = i + 1;
    }
    assert(patch_invert(patch_view(patch@)).take(i as int) =~= patch_invert(patch_view(patch@)));
    out
}

/// Inverting swaps the source and destination texts.
pub proof fn lemma_invert_swaps_texts(p: Seq<(PatchOpType, Seq<char>)>)
    ensures
        patch_src(patch_invert(p)) == patch_dst(p),
        patch_dst(patch_invert(p)) == patch_src(p),
    decreases p.len(),
{
    if p.len() > 0 {
        assert(patch_invert(p).drop_last() =~= patch_invert(p.drop_last()));
        lemma_invert_swaps_texts(p.drop_last());
    }
}


/// One edit that applying a patch makes to the source text, in UTF-16 units.
#[derive(Debug, Clone, PartialEq, Eq)]
pub enum StrEdit {
    Insert { pos: usize, text: String },
    Delete { pos: usize, len: usize, text: String },
}

/// An edit with its text as characters.
pub enum EditView {
    Insert(int, Seq<char>),
    Delete(int, int, Seq<char>),
}

impl StrEdit {
    /// The edit with its text as characters.
    pub open spec fn edit_view(&self) -> EditView {
        match self {
            StrEdit::Insert { pos, text } => EditView::Insert(*pos as int, text@),
            StrEdit::Delete { pos, len, text } => EditView::Delete(*pos as int, *len as int, text@),
        }
    }
}

/// `a - b`, or 0 when `b` exceeds `a`.
pub open spec fn sat_sub(a: int, b: int) -> int {
    if a >= b {
        a - b
    } else {
        0
    }
}

/// The edits that applying a patch makes, last run first, starting from
/// position `pos` (the source length).
pub open spec fn spec_apply(p: Seq<(PatchOpType, Seq<char>)>, pos: int) -> Seq<EditView>
    decreases p.len(),
{
    if p.len() == 0 {
        Seq::empty()
    } else {
        let op = p.last();
        let n = utf16_of(op.1).len() as int;
        match op.0 {
            PatchOpType::Eql => spec_apply(p.drop_last(), sat_sub(pos, n)),
            PatchOpType::Ins => seq![EditView::Insert(pos, op.1)] + spec_apply(p.drop_last(), pos),
            PatchOpType::Del => seq![EditView::Delete(sat_sub(pos, n), n, op.1)] + spec_apply(
                p.drop_last(),
                sat_sub(pos, n),
            ),
        }
    }
}

/// One edit carried out on UTF-16 units.
pub open spec fn apply_edit_units(t: Seq<u16>, e: EditView) -> Seq<u16> {
    match e {
        EditView::Insert(pos, s) => t.take(pos) + utf16_of(s) + t.skip(pos),
        EditView::Delete(pos, len, _) => t.take(pos) + t.skip(pos + len),
    }
}

/// Edits carried out in order on UTF-16 units.
pub open spec fn apply_edits_units(t: Seq<u16>, es: Seq<EditView>) -> Seq<u16>
    decreases es.len(),
{
    if es.len() == 0 {
        t
    } else {
        apply_edits_units(apply_edit_units(t, es[0]), es.drop_first())
    }
}

proof fn lemma_apply_edits_concat(t: Seq<u16>, a: Seq<EditView>, b: Seq<EditView>)
    ensures
        apply_edits_units(t, a + b) == apply_edits_units(apply_edits_units(t, a), b),
    decreases a.len(),
{
    if a.len() == 0 {
        assert(a + b =~= b);
    } else {
        assert((a + b)[0] == a[0]);
        assert((a + b).drop_first() =~= a.drop_first() + b);
        lemma_apply_edits_concat(apply_edit_units(t, a[0]), a.drop_first(), b);
    }
}

/// Carrying out the edits of a patch on its source text (followed by any
/// text at all) gives its destination text (followed by the same text).
pub proof fn lemma_apply_gives_dst(p: Seq<(PatchOpType, Seq<char>)>, z: Seq<u16>)
    ensures
        apply_edits_units(
            utf16_of(patch_src(p)) + z,
            spec_apply(p, utf16_of(patch_src(p)).len() as int),
        ) == utf16_of(patch_dst(p)) + z,
    decreases p.len(),
{
    if p.len() > 0 {
        let q = p.drop_last();
        let op = p.last();
        let sq = utf16_of(patch_src(q));
        let dq = utf16_of(patch_dst(q));
        let u = utf16_of(op.1);
        let n = u.len() as int;
        lemma_utf16_of_concat(patch_src(q), op.1);
        lemma_utf16_of_concat(patch_dst(q), op.1);
        assert(patch_src(q) + Seq::<char>::empty() =~= patch_src(q));
        assert(patch_dst(q) + Seq::<char>::empty() =~= patch_dst(q));
        match op.0 {
            PatchOpType::Eql => {
                assert(patch_src(p) == patch_src(q) + op.1);
                assert(patch_dst(p) == patch_dst(q) + op.1);
                assert(utf16_of(patch_src(p)) == sq + u);
                assert(spec_apply(p, (sq.len() + n) as int) == spec_apply(q, sat_sub(sq.len() + n, n)));
                assert(sat_sub(sq.len() + n, n) == sq.len());
                lemma_apply_gives_dst(q, u + z);
                assert(sq + u + z =~= sq + (u + z));
                assert(dq + (u + z) =~= dq + u + z);
                assert(utf16_of(patch_dst(p)) == dq + u);
                assert(apply_edits_units(sq + u + z, spec_apply(q, sq.len() as int)) == dq + u + z);
            },
            PatchOpType::Ins => {
                assert(patch_src(p) == patch_src(q) + Seq::<char>::empty());
                assert(patch_dst(p) == patch_dst(q) + op.1);
                assert(utf16_of(patch_src(p)) == sq);
                let e = EditView::Insert(sq.len() as int, op.1);
                assert(spec_apply(p, sq.len() as int) == seq![e] + spec_apply(q, sq.len() as int));
                assert((sq + z).take(sq.len() as int) =~= sq);
                assert((sq + z).skip(sq.len() as int) =~= z);
                assert(apply_edit_units(sq + z, e) =~= sq + (u + z));
                lemma_apply_edits_concat(sq + z, seq![e], spec_apply(q, sq.len() as int));
                assert(apply_edits_units(sq + z, seq![e]) == apply_edits_units(
                    apply_edit_units(sq + z, e),
                    seq![e].drop_first(),
                ));
                assert(seq![e].drop_first() =~= Seq::<EditView>::empty());
                lemma_apply_gives_dst(q, u + z);
                assert(dq + (u + z) =~= dq + u + z);
                assert(apply_edits_units(sq + z, seq![e]) == apply_edit_units(sq + z, e));
                assert(apply_edits_units(sq + z, seq![e] + spec_apply(q, sq.len() as int))
                    == apply_edits_units(sq + (u + z), spec_apply(q, sq.len() as int)));
                assert(utf16_of(patch_dst(p)) == dq + u);
            },
            PatchOpType::Del => {
                assert(patch_src(p) == patch_src(q) + op.1);
                assert(patch_dst(p) == patch_dst(q) + Seq::<char>::empty());
                assert(utf16_of(patch_src(p)) == sq + u);
                assert(sat_sub(sq.len() + n, n) == sq.len());
                let e = EditView::Delete(sq.len() as int, n, op.1);
                assert(spec_apply(p, (sq.len() + n) as int) == seq![e] + spec_apply(q, sq.len() as int));
                assert((sq + u + z).take(sq.len() as int) =~= sq);
                assert((sq + u + z).skip(sq.len() + n) =~= z);
                assert(apply_edit_units(sq + u + z, e) =~= sq + z);
                lemma_apply_edits_concat(sq + u + z, seq![e], spec_apply(q, sq.len() as int));
                assert(seq![e].drop_first() =~= Seq::<EditView>::empty());
                assert(seq![e][0] == e);
                assert(apply_edits_units(apply_edit_units(sq + u + z, e), Seq::<EditView>::empty())
                    == apply_edit_units(sq + u + z, e));
                assert(apply_edits_units(sq + u + z, seq![e]) == apply_edit_units(sq + u + z, e));
                lemma_apply_gives_dst(q, z);
                assert(patch_dst(q) + Seq::<char>::empty() =~= patch_dst(q));
                assert(utf16_of(patch_dst(p)) == dq);
            },
        }
    }
}

/// The edits that carry the source text of the patch over into its
/// destination text: walking the runs from the last one back, with the
/// position starting at `src_len` (in UTF-16 units), an insertion at the
/// position, a deletion just before it, equal runs only moving it back.
pub fn apply(patch: &Patch, src_len: usize) -> (res: Vec<StrEdit>)
    ensures
        res@.map_values(|e: StrEdit| e.edit_view()) == spec_apply(patch_view(patch@), src_len as int),
{
    let ghost pv = patch_view(patch@);
    let mut out: Vec<StrEdit> = Vec::new();
    let mut pos = src_len;
    let mut i = patch.len();
    proof {
        assert(pv.take(i as int) =~= pv);
        assert(out@.map_values(|e: StrEdit| e.edit_view()) + spec_apply(pv, src_len as int)
            =~= spec_apply(pv, src_len as int));
    }
    while i > 0
        invariant
            i <= patch.len(),
            pv == patch_view(patch@),
            pos <= src_len,
            spec_apply(pv, src_len as int) == out@.map_values(|e: StrEdit| e.edit_view())
                + spec_apply(pv.take(i as int), pos as int),
        decreases i,
    {
        let ghost q = pv.take(i as int);
        proof {
            assert(q.drop_last() =~= pv.take(i - 1));
            assert(q.last() == pv[i - 1]);
        }
        let t = patch[i - 1].0;
        let units = utf16_units(patch[i - 1].1.as_str());
        let n = units.len();
        let ghost o0 = out@.map_values(|e: StrEdit| e.edit_view());
        match t {
            PatchOpType::Eql => {
                pos = if pos >= n {
                    pos - n
                } else {
                    0
                };
            },
            PatchOpType::Ins => {
                let e = StrEdit::Insert { pos, text: patch[i - 1].1.clone() };
                out.push(e);
                proof {
                    assert(out@.map_values(|e: StrEdit| e.edit_view()) =~= o0.push(e.edit_view()));
                    assert(o0.push(e.edit_view()) + spec_apply(pv.take(i - 1), pos as int) =~= o0 + (
                    seq![e.edit_view()] + spec_apply(pv.take(i - 1), pos as int)));
                }
            },
            PatchOpType::Del => {
                pos = if pos >= n {
                    pos - n
                } else {
                    0
                };
                let e = StrEdit::Delete { pos, len: n, text: patch[i - 1].1.clone() };
                out.push(e);
                proof {
                    assert(out@.map_values(|e: StrEdit| e.edit_view()) =~= o0.push(e.edit_view()));
                    assert(o0.push(e.edit_view()) + spec_apply(pv.take(i - 1), pos as int) =~= o0 + (
                    seq![e.edit_view()] + spec_apply(pv.take(i - 1), pos as int)));
                }
            },
        }
        i = i - 1;
    }
    proof {
        assert(pv.take(0) =~= Seq::<(PatchOpType, Seq<char>)>::empty());
        assert(out@.map_values(|e: StrEdit| e.edit_view()) + Seq::<EditView>::empty()
            =~= out@.map_values(|e: StrEdit| e.edit_view()));
    }
    out
}

/// The length of the longest common prefix.
pub open spec fn common_prefix_len(a: Seq<u16>, b: Seq<u16>) -> nat
    decreases a.len(),
{
    if a.len() == 0 || b.len() == 0 || a[0] != b[0] {
        0
    } else {
        1 + common_prefix_len(a.drop_first(), b.drop_first())
    }
}

/// The length of the longest common suffix.
pub open spec fn common_suffix_len(a: Seq<u16>, b: Seq<u16>) -> nat
    decreases a.len(),
{
    if a.len() == 0 || b.len() == 0 || a.last() != b.last() {
        0
    } else {
        1 + common_suffix_len(a.drop_last(), b.drop_last())
    }
}

proof fn lemma_common_prefix(a: Seq<u16>, b: Seq<u16>, k: int)
    requires
        0 <= k <= a.len(),
        k <= b.len(),
    ensures
        common_prefix_len(a, b) <= a.len(),
        common_prefix_len(a, b) <= b.len(),
        (a.take(k) =~= b.take(k)) <==> k <= common_prefix_len(a, b),
    decreases a.len(),
{
    if a.len() > 0 && b.len() > 0 && k > 0 {
        lemma_common_prefix(a.drop_first(), b.drop_first(), k - 1);
        assert(a.take(k).drop_first() =~= a.drop_first().take(k - 1));
        assert(b.take(k).drop_first() =~= b.drop_first().take(k - 1));
        if a[0] == b[0] {
            if a.drop_first().take(k - 1) =~= b.drop_first().take(k - 1) {
                assert(a.take(k) =~= b.take(k)) by {
                    assert forall|j: int| 0 <= j < k implies a.take(k)[j] == b.take(k)[j] by {
                        if j > 0 {
                            assert(a.take(k)[j] == a.drop_first().take(k - 1)[j - 1]);
                            assert(b.take(k)[j] == b.drop_first().take(k - 1)[j - 1]);
                        }
                    }
                }
            }
        } else {
            assert(a.take(k)[0] != b.take(k)[0]);
        }
        if a.take(k) =~= b.take(k) {
            assert(a.take(k)[0] == b.take(k)[0]);
        }
    } else if a.len() > 0 && b.len() > 0 {
        lemma_common_prefix(a.drop_first(), b.drop_first(), 0);
    }
}

proof fn lemma_common_suffix(a: Seq<u16>, b: Seq<u16>, k: int)
    requires
        0 <= k <= a.len(),
        k <= b.len(),
    ensures
        common_suffix_len(a, b) <= a.len(),
        common_suffix_len(a, b) <= b.len(),
        (a.skip(a.len() - k) =~= b.skip(b.len() - k)) <==> k <= common_suffix_len(a, b),
    decreases a.len(),
{
    if a.len() > 0 && b.len() > 0 && k > 0 {
        let a1 = a.drop_last();
        let b1 = b.drop_last();
        lemma_common_suffix(a1, b1, k - 1);
        assert(a.skip(a.len() - k).drop_last() =~= a1.skip(a1.len() - (k - 1)));
        assert(b.skip(b.len() - k).drop_last() =~= b1.skip(b1.len() - (k - 1)));
        let sa = a.skip(a.len() - k);
        let sb = b.skip(b.len() - k);
        assert(sa.last() == a.last());
        assert(sb.last() == b.last());
        if a.last() == b.last() && a1.skip(a1.len() - (k - 1)) =~= b1.skip(b1.len() - (k - 1)) {
            assert forall|j: int| 0 <= j < k implies sa[j] == sb[j] by {
                if j < k - 1 {
                    assert(sa[j] == sa.drop_last()[j]);
                    assert(sb[j] == sb.drop_last()[j]);
                }
            }
            assert(sa =~= sb);
        }
        if sa =~= sb {
            assert(sa.drop_last() =~= sb.drop_last());
        }
    } else if a.len() > 0 && b.len() > 0 {
        lemma_common_suffix(a.drop_last(), b.drop_last(), 0);
    }
}

fn units_equal_range(a: &Vec<u16>, b: &Vec<u16>, a_from: usize, b_from: usize, n: usize) -> (res: bool)
    requires
        a_from + n <= a@.len(),
        b_from + n <= b@.len(),
    ensures
        res == (a@.subrange(a_from as int, a_from + n) =~= b@.subrange(b_from as int, b_from + n)),
{
    let mut k: usize = 0;
    while k < n
        invariant
            k <= n,
            a_from + n <= a.len(),
            b_from + n <= b.len(),
            a_from + n <= a@.len(),
            b_from + n <= b@.len(),
            a@.subrange(a_from as int, a_from + k) == b@.subrange(b_from as int, b_from + k),
        decreases n - k,
    {
        if a[a_from + k] != b[b_from + k] {
            proof {
                assert(a@.subrange(a_from as int, a_from + n)[k as int] != b@.subrange(
                    b_from as int,
                    b_from + n,
                )[k as int]);
            }
            return false;
        }
        proof {
            assert(a@.subrange(a_from as int, a_from + k + 1) =~= a@.subrange(a_from as int, a_from + k).push(
                a@[a_from + k],
            ));
            assert(b@.subrange(b_from as int, b_from + k + 1) =~= b@.subrange(b_from as int, b_from + k).push(
                b@[b_from + k],
            ));
        }
        k = k + 1;
    }
    true
}

/// The common prefix of two texts, in UTF-16 units, shortened by one when it
/// would end inside a surrogate pair.
pub open spec fn spec_pfx(a: Seq<u16>, b: Seq<u16>) -> nat {
    if a.len() == 0 || b.len() == 0 {
        0
    } else {
        let l = common_prefix_len(a, b);
        if l > 0 && is_high_surrogate(a[l - 1]) {
            (l - 1) as nat
        } else {
            l
        }
    }
}

fn pfx_units(a: &Vec<u16>, b: &Vec<u16>) -> (res: usize)
    ensures
        res == spec_pfx(a@, b@),
{
    if a.len() == 0 || b.len() == 0 {
        return 0;
    }
    proof {
        lemma_common_prefix(a@, b@, 0);
    }
    if a[0] != b[0] {
        return 0;
    }
    let ghost l = common_prefix_len(a@, b@);
    let big = if a.len() < b.len() {
        a.len()
    } else {
        b.len()
    };
    let mut min: usize = 0;
    let mut max: usize = big;
    let mut mid: usize = max;
    let mut start: usize = 0;
    while min < mid
        invariant
            min <= mid <= max <= big,
            big <= a@.len(),
            big <= b@.len(),
            big == a@.len() || big == b@.len(),
            start == min,
            mid == max || mid == (max - min) / 2 + min,
            l == common_prefix_len(a@, b@),
            l <= big,
            min <= l,
            l < max || mid == max,
            mid == max ==> max == big,
        decreases max - min, mid - min,
    {
        proof {
            lemma_common_prefix(a@, b@, mid as int);
            lemma_common_prefix(a@, b@, min as int);
            assert(a@.take(mid as int) =~= a@.take(min as int) + a@.subrange(min as int, mid as int));
            assert(b@.take(mid as int) =~= b@.take(min as int) + b@.subrange(min as int, mid as int));
        }
        if units_equal_range(a, b, start, start, mid - start) {
            min = mid;
            start = min;
        } else {
            proof {
                if mid <= l {
                    assert(a@.subrange(min as int, mid as int) =~= a@.take(mid as int).skip(
                        min as int,
                    ));
                    assert(b@.subrange(min as int, mid as int) =~= b@.take(mid as int).skip(
                        min as int,
                    ));
                }
            }
            max = mid;
        }
        mid = (max - min) / 2 + min;
    }
    proof {
        lemma_common_prefix(a@, b@, 0);
        if mid != max {
            assert(max - min <= 1);
        }
        assert(mid == l);
    }
    if mid > 0 {
        let code = a[mid - 1];
        if 0xd800 <= code && code <= 0xdbff {
            mid = mid - 1;
        }
    }
    mid
}

/// The length, in UTF-16 units, of the common prefix of two texts, not
/// ending inside a surrogate pair.
pub fn pfx(txt1: &str, txt2: &str) -> (res: usize)
    ensures
        res == spec_pfx(utf16_of(txt1@), utf16_of(txt2@)),
{
    let a = utf16_units(txt1);
    let b = utf16_units(txt2);
    pfx_units(&a, &b)
}

/// A unit that must not be separated from what follows it: a high surrogate,
/// a zero-width joiner, a variation selector or a combining diacritic.
pub open spec fn is_joining_unit(u: u16) -> bool {
    is_high_surrogate(u) || u == 0x200d || (0xfe00 <= u <= 0xfe0f) || (0x0300 <= u <= 0x036f)
}

/// Shortening a common suffix of length `m` of `a` while the unit before it
/// joins onto it.
pub open spec fn sfx_back_off(a: Seq<u16>, m: int) -> int
    decreases m,
{
    if m <= 0 || m >= a.len() {
        if m < 0 {
            0
        } else {
            m
        }
    } else if is_joining_unit(a[a.len() - m - 1]) {
        sfx_back_off(a, m - 1)
    } else {
        m
    }
}

/// The common suffix of two texts, in UTF-16 units, shortened so that it does
/// not start right after a joining unit.
pub open spec fn spec_sfx(a: Seq<u16>, b: Seq<u16>) -> nat {
    if a.len() == 0 || b.len() == 0 {
        0
    } else {
        let l = common_suffix_len(a, b);
        if l > 0 && l < a.len() && is_joining_unit(a[a.len() - l - 1]) {
            sfx_back_off(a, l - 1) as nat
        } else {
            l
        }
    }
}

fn sfx_units(a: &Vec<u16>, b: &Vec<u16>) -> (res: usize)
    ensures
        res == spec_sfx(a@, b@),
{
    if a.len() == 0 || b.len() == 0 {
        return 0;
    }
    proof {
        lemma_common_suffix(a@, b@, 0);
    }
    if a[a.len() - 1] != b[b.len() - 1] {
        return 0;
    }
    let ghost l = common_suffix_len(a@, b@);
    let la = a.len();
    let lb = b.len();
    let big = if la < lb {
        la
    } else {
        lb
    };
    let mut min: usize = 0;
    let mut max: usize = big;
    let mut mid: usize = max;
    let mut end: usize = 0;
    while min < mid
        invariant
            min <= mid <= max <= big,
            big <= la,
            big <= lb,
            la == a@.len(),
            lb == b@.len(),
            big == la || big == lb,
            end == min,
            mid == max || mid == (max - min) / 2 + min,
            l == common_suffix_len(a@, b@),
            l <= big,
            min <= l,
            l < max || mid == max,
            mid == max ==> max == big,
        decreases max - min, mid - min,
    {
        proof {
            lemma_common_suffix(a@, b@, mid as int);
            lemma_common_suffix(a@, b@, min as int);
            assert(a@.skip(la - mid) =~= a@.subrange(la - mid, la - min) + a@.skip(la - min));
            assert(b@.skip(lb - mid) =~= b@.subrange(lb - mid, lb - min) + b@.skip(lb - min));
        }
        if units_equal_range(a, b, la - mid, lb - mid, mid - end) {
            min = mid;
            end = min;
        } else {
            proof {
                if mid <= l {
                    assert(a@.subrange(la - mid, la - min) =~= a@.skip(la - mid).take(
                        mid - min,
                    ));
                    assert(b@.subrange(lb - mid, lb - min) =~= b@.skip(lb - mid).take(
                        mid - min,
                    ));
                }
            }
            max = mid;
        }
        mid = (max - min) / 2 + min;
    }
    proof {
        lemma_common_suffix(a@, b@, 0);
        if mid != max {
            assert(max - min <= 1);
        }
        assert(mid == l);
    }
    if mid > 0 && mid < la {
        let boundary = a[la - mid - 1];
        let is_high = 0xd800 <= boundary && boundary <= 0xdbff;
        let is_combining = boundary == 0x200d || (0xfe00 <= boundary && boundary <= 0xfe0f) || (
        0x0300 <= boundary && boundary <= 0x036f);
        if is_high || is_combining {
            mid = mid - 1;
            while mid > 0
                invariant_except_break
                    mid < la,
                    la == a@.len(),
                    sfx_back_off(a@, l - 1) == sfx_back_off(a@, mid as int),
                ensures
                    mid == sfx_back_off(a@, l - 1),
                decreases mid,
            {
                let pos = la - (mid + 1);
                let prev = a[pos];
                let prev_high = 0xd800 <= prev && prev <= 0xdbff;
                let prev_comb = prev == 0x200d || (0xfe00 <= prev && prev <= 0xfe0f) || (0x0300
                    <= prev && prev <= 0x036f);
                if !prev_high && !prev_comb {
                    proof {
                        assert(!is_joining_unit(a@[la - mid - 1]));
                        assert(sfx_back_off(a@, mid as int) == mid);
                    }
                    break;
                }
                mid = mid - 1;
            }
            proof {
                if mid == 0 {
                    assert(sfx_back_off(a@, 0) == 0);
                }
            }
        }
    }
    mid
}

/// The length, in UTF-16 units, of the common suffix of two texts, not
/// starting right after a joining unit.
pub fn sfx(txt1: &str, txt2: &str) -> (res: usize)
    ensures
        res == spec_sfx(utf16_of(txt1@), utf16_of(txt2@)),
{
    let a = utf16_units(txt1);
    let b = utf16_units(txt2);
    sfx_units(&a, &b)
}

/// The common prefix that `pfx` measures splits both texts at whole
/// characters, and is the same text in both.
pub proof fn lemma_pfx_split(a: Seq<char>, b: Seq<char>)
    ensures
        ({
            let ua = utf16_of(a);
            let ub = utf16_of(b);
            let p = spec_pfx(ua, ub) as int;
            &&& p <= ua.len()
            &&& p <= ub.len()
            &&& ua.take(p) == ub.take(p)
            &&& utf16_decode(ua.take(p)) + utf16_decode(ua.skip(p)) == a
            &&& utf16_decode(ub.take(p)) + utf16_decode(ub.skip(p)) == b
        }),
{
    let ua = utf16_of(a);
    let ub = utf16_of(b);
    let p = spec_pfx(ua, ub) as int;
    lemma_utf16_wf(a);
    lemma_utf16_wf(b);
    lemma_common_prefix(ua, ub, 0);
    if ua.len() > 0 && ub.len() > 0 {
        let l = common_prefix_len(ua, ub) as int;
        lemma_common_prefix(ua, ub, p);
        assert(ua.take(p) =~= ub.take(p));
        if p > 0 {
            if l > 0 && is_high_surrogate(ua[l - 1]) {
                if is_high_surrogate(ua[p - 1]) {
                    assert(is_low_surrogate(ua[p]));
                }
            }
            assert(!is_high_surrogate(ua[p - 1]));
            assert(ub[p - 1] == ub.take(p)[p - 1]);
            assert(ua[p - 1] == ua.take(p)[p - 1]);
        }
    } else {
        assert(ua.take(0) =~= ub.take(0));
    }
    lemma_split_chars(a, p);
    lemma_split_chars(b, p);
}

proof fn lemma_sfx_back_off(a: Seq<u16>, m: int)
    requires
        m < a.len(),
    ensures
        0 <= sfx_back_off(a, m) <= (if m < 0 { 0 } else { m }),
        sfx_back_off(a, m) == 0 || !is_joining_unit(a[a.len() - sfx_back_off(a, m) - 1]),
    decreases m,
{
    if m > 0 && is_joining_unit(a[a.len() - m - 1]) {
        lemma_sfx_back_off(a, m - 1);
    }
}

/// The common suffix that `sfx` measures splits both texts at whole
/// characters, and is the same text in both.
pub proof fn lemma_sfx_split(a: Seq<char>, b: Seq<char>)
    ensures
        ({
            let ua = utf16_of(a);
            let ub = utf16_of(b);
            let s = spec_sfx(ua, ub) as int;
            &&& s <= ua.len()
            &&& s <= ub.len()
            &&& ua.skip(ua.len() - s) == ub.skip(ub.len() - s)
            &&& utf16_decode(ua.take(ua.len() - s)) + utf16_decode(ua.skip(ua.len() - s)) == a
            &&& utf16_decode(ub.take(ub.len() - s)) + utf16_decode(ub.skip(ub.len() - s)) == b
        }),
{
    let ua = utf16_of(a);
    let ub = utf16_of(b);
    let la = ua.len() as int;
    let lb = ub.len() as int;
    let s = spec_sfx(ua, ub) as int;
    lemma_utf16_wf(a);
    lemma_utf16_wf(b);
    lemma_common_suffix(ua, ub, 0);
    if la > 0 && lb > 0 {
        let l = common_suffix_len(ua, ub) as int;
        if l > 0 && l < la && is_joining_unit(ua[la - l - 1]) {
            lemma_sfx_back_off(ua, l - 1);
        }
        assert(0 <= s <= l);
        lemma_common_suffix(ua, ub, s);
        assert(ua.skip(la - s) =~= ub.skip(lb - s));
        let ka = la - s;
        let kb = lb - s;
        if ka > 0 {
            if ka == la {
                if is_high_surrogate(ua[la - 1]) {
                    assert(la - 1 + 1 < la);
                }
            }
            assert(!is_high_surrogate(ua[ka - 1]));
        }
        if kb > 0 {
            if kb == lb {
                if is_high_surrogate(ub[lb - 1]) {
                    assert(lb - 1 + 1 < lb);
                }
            } else if is_high_surrogate(ub[kb - 1]) {
                assert(is_low_surrogate(ub[kb]));
                assert(ub[kb] == ub.skip(kb)[0]);
                assert(ua[ka] == ua.skip(ka)[0]);
                assert(is_low_surrogate(ua[ka]));
            }
            assert(!is_high_surrogate(ub[kb - 1]));
        }
    } else {
        assert(ua.skip(la) =~= ub.skip(lb));
        if la > 0 && is_high_surrogate(ua[la - 1]) {
            assert(la - 1 + 1 < la);
        }
        if lb > 0 && is_high_surrogate(ub[lb - 1]) {
            assert(lb - 1 + 1 < lb);
        }
    }
    lemma_split_chars(a, la - s);
    lemma_split_chars(b, lb - s);
}


// ---------------------------------------------------------------------------
// Cleaning up a raw diff
// ---------------------------------------------------------------------------

/// Source and destination texts add up over concatenation.
pub proof fn lemma_texts_concat(a: Seq<(PatchOpType, Seq<char>)>, b: Seq<(PatchOpType, Seq<char>)>)
    ensures
        patch_src(a + b) == patch_src(a) + patch_src(b),
        patch_dst(a + b) == patch_dst(a) + patch_dst(b),
    decreases b.len(),
{
    if b.len() == 0 {
        assert(a + b =~= a);
        assert(patch_src(a) + patch_src(b) =~= patch_src(a));
        assert(patch_dst(a) + patch_dst(b) =~= patch_dst(a));
    } else {
        lemma_texts_concat(a, b.drop_last());
        assert((a + b).drop_last() =~= a + b.drop_last());
        assert((a + b).last() == b.last());
        assert(patch_src(a + b) =~= patch_src(a) + patch_src(b));
        assert(patch_dst(a + b) =~= patch_dst(a) + patch_dst(b));
    }
}

/// Appending `x` to a last equal run adds `x` to both texts.
proof fn lemma_extend_last_eql(p: Seq<(PatchOpType, Seq<char>)>, x: Seq<char>)
    requires
        p.len() > 0,
        p.last().0 == PatchOpType::Eql,
    ensures
        patch_src(p.update(p.len() - 1, (PatchOpType::Eql, p.last().1 + x))) == patch_src(p) + x,
        patch_dst(p.update(p.len() - 1, (PatchOpType::Eql, p.last().1 + x))) == patch_dst(p) + x,
{
    let q = p.update(p.len() - 1, (PatchOpType::Eql, p.last().1 + x));
    assert(q.drop_last() =~= p.drop_last());
    assert(patch_src(q) =~= patch_src(p) + x);
    assert(patch_dst(q) =~= patch_dst(p) + x);
}

/// Runs of one kind are never neighbours, and every run but possibly the
/// last is nonempty.
pub open spec fn merged_but_last(p: Seq<(PatchOpType, Seq<char>)>) -> bool {
    &&& forall|i: int| 0 <= i < p.len() - 1 ==> (#[trigger] p[i]).1.len() > 0
    &&& forall|i: int| 0 < i < p.len() ==> (#[trigger] p[i]).0 != p[i - 1].0
}

/// The view of a run list after one more run.
proof fn lemma_view_push(p: Seq<PatchOperation>, op: PatchOperation)
    ensures
        patch_view(p.push(op)) == patch_view(p).push(op_view(op)),
{
    assert(patch_view(p.push(op)) =~= patch_view(p).push(op_view(op)));
}

/// The view of a run list after its last run changes.
proof fn lemma_view_set_last(p: Seq<PatchOperation>, op: PatchOperation)
    requires
        p.len() > 0,
    ensures
        patch_view(p.update(p.len() - 1, op)) == patch_view(p).update(p.len() - 1, op_view(op)),
{
    assert(patch_view(p.update(p.len() - 1, op)) =~= patch_view(p).update(p.len() - 1, op_view(op)));
}

/// Appends `x` to the last run, an equal run.
fn extend_last(out: &mut Vec<PatchOperation>, x: &str)
    requires
        old(out)@.len() > 0,
        old(out)@.last().0 == PatchOpType::Eql,
    ensures
        final(out)@.len() == old(out)@.len(),
        patch_view(final(out)@) == patch_view(old(out)@).update(
            old(out)@.len() - 1,
            (PatchOpType::Eql, old(out)@.last().1@ + x@),
        ),
{
    let n = out.len();
    let mut t = out[n - 1].1.clone();
    t.append(x);
    let ghost before = out@;
    out.set(n - 1, (PatchOpType::Eql, t));
    proof {
        assert(out@ == before.update(n - 1, (PatchOpType::Eql, t)));
        lemma_view_set_last(before, (PatchOpType::Eql, t));
    }
}

/// The texts after one more run.
pub proof fn lemma_texts_push(p: Seq<(PatchOpType, Seq<char>)>, op: (PatchOpType, Seq<char>))
    ensures
        patch_src(p.push(op)) == patch_src(p) + if op.0 != PatchOpType::Ins {
            op.1
        } else {
            Seq::empty()
        },
        patch_dst(p.push(op)) == patch_dst(p) + if op.0 != PatchOpType::Del {
            op.1
        } else {
            Seq::empty()
        },
{
    assert(p.push(op).drop_last() =~= p);
}

/// Splits the common prefix and the common suffix (in the sense of `pfx`
/// and `sfx`, prefix first) off a deleted and an inserted text, when both
/// are nonempty: `(prefix, deleted rest, inserted rest, suffix)`.
fn split_affixes(del_txt: String, ins_txt: String) -> (res: (String, String, String, String))
    ensures
        del_txt@ == res.0@ + res.1@ + res.3@,
        ins_txt@ == res.0@ + res.2@ + res.3@,
{
    let mut del_txt = del_txt;
    let mut ins_txt = ins_txt;
    let mut pre = String::new();
    let mut suf = String::new();
    let ghost del0 = del_txt@;
    let ghost ins0 = ins_txt@;
    if del_txt.as_str().unicode_len() != 0 && ins_txt.as_str().unicode_len() != 0 {
        let p = pfx(ins_txt.as_str(), del_txt.as_str());
        if p != 0 {
            proof {
                lemma_pfx_split(ins_txt@, del_txt@);
            }
            let ins_u = utf16_units(ins_txt.as_str());
            let del_u = utf16_units(del_txt.as_str());
            pre = from_utf16(vstd::slice::slice_subrange(ins_u.as_slice(), 0, p));
            let ins_rest = from_utf16(vstd::slice::slice_subrange(ins_u.as_slice(), p, ins_u.len()));
            let del_rest = from_utf16(vstd::slice::slice_subrange(del_u.as_slice(), p, del_u.len()));
            proof {
                assert(ins_u@.subrange(0, p as int) =~= ins_u@.take(p as int));
                assert(ins_u@.subrange(p as int, ins_u@.len() as int) =~= ins_u@.skip(p as int));
                assert(del_u@.subrange(p as int, del_u@.len() as int) =~= del_u@.skip(p as int));
            }
            ins_txt = ins_rest;
            del_txt = del_rest;
        }
        let s = sfx(ins_txt.as_str(), del_txt.as_str());
        if s != 0 {
            proof {
                lemma_sfx_split(ins_txt@, del_txt@);
            }
            let ins_u = utf16_units(ins_txt.as_str());
            let del_u = utf16_units(del_txt.as_str());
            let il = ins_u.len();
            let dl = del_u.len();
            suf = from_utf16(vstd::slice::slice_subrange(ins_u.as_slice(), il - s, il));
            let ins_rest = from_utf16(vstd::slice::slice_subrange(ins_u.as_slice(), 0, il - s));
            let del_rest = from_utf16(vstd::slice::slice_subrange(del_u.as_slice(), 0, dl - s));
            proof {
                assert(ins_u@.subrange(il - s, il as int) =~= ins_u@.skip(il - s));
                assert(ins_u@.subrange(0, il - s) =~= ins_u@.take(il - s));
                assert(del_u@.subrange(0, dl - s) =~= del_u@.take(dl - s));
            }
            ins_txt = ins_rest;
            del_txt = del_rest;
        }
    }
    assert(del0 =~= pre@ + del_txt@ + suf@);
    assert(ins0 =~= pre@ + ins_txt@ + suf@);
    (pre, del_txt, ins_txt, suf)
}

/// Adds `x` as an equal run: appended to a last equal run, else a run of
/// its own.
fn add_equal(out: &mut Vec<PatchOperation>, x: String)
    requires
        merged_but_last(patch_view(old(out)@)),
        old(out)@.len() > 0 ==> old(out)@.last().1@.len() > 0,
    ensures
        patch_src(patch_view(final(out)@)) == patch_src(patch_view(old(out)@)) + x@,
        patch_dst(patch_view(final(out)@)) == patch_dst(patch_view(old(out)@)) + x@,
        merged_but_last(patch_view(final(out)@)),
        final(out)@.len() > 0,
        final(out)@.last().0 == PatchOpType::Eql,
        x@.len() > 0 || (old(out)@.len() > 0 && old(out)@.last().0 == PatchOpType::Eql) ==> final(out)@.last().1@.len() > 0,
        old(out)@.len() > 0 && old(out)@.last().0 == PatchOpType::Eql ==> final(out)@.len() == old(out)@.len(),
{
    let ghost before = out@;
    if out.len() > 0 && out[out.len() - 1].0 == PatchOpType::Eql {
        extend_last(out, x.as_str());
        proof {
            lemma_extend_last_eql(patch_view(before), x@);
            let v = patch_view(out@);
            assert forall|i: int| 0 < i < v.len() implies (#[trigger] v[i]).0 != v[i - 1].0 by {
                assert(v[i].0 == patch_view(before)[i].0);
                assert(v[i - 1].0 == patch_view(before)[i - 1].0);
            }
            assert forall|i: int| 0 <= i < v.len() - 1 implies (#[trigger] v[i]).1.len() > 0 by {
                assert(v[i] == patch_view(before)[i]);
            }
        }
    } else {
        out.push((PatchOpType::Eql, x));
        proof {
            lemma_view_push(before, (PatchOpType::Eql, x));
            lemma_texts_push(patch_view(before), (PatchOpType::Eql, x@));
            let v = patch_view(out@);
            assert forall|i: int| 0 < i < v.len() implies (#[trigger] v[i]).0 != v[i - 1].0 by {
                if i < v.len() - 1 {
                    assert(v[i] == patch_view(before)[i]);
                }
                assert(v[i - 1] == patch_view(before)[i - 1]);
            }
            assert forall|i: int| 0 <= i < v.len() - 1 implies (#[trigger] v[i]).1.len() > 0 by {
                assert(v[i] == patch_view(before)[i]);
            }
        }
    }
}

/// Adds a nonempty edit run after a last equal run (or at the start), or
/// after a deletion when it is an insertion.
fn add_edit(out: &mut Vec<PatchOperation>, kind: PatchOpType, x: String)
    requires
        kind != PatchOpType::Eql,
        x@.len() > 0,
        merged_but_last(patch_view(old(out)@)),
        old(out)@.len() > 0 ==> old(out)@.last().1@.len() > 0 && old(out)@.last().0 != kind,
    ensures
        final(out)@ == old(out)@.push((kind, x)),
        patch_view(final(out)@) == patch_view(old(out)@).push((kind, x@)),
        merged_but_last(patch_view(final(out)@)),
{
    let ghost before = out@;
    out.push((kind, x));
    proof {
        lemma_view_push(before, (kind, x));
        let v = patch_view(out@);
        assert forall|i: int| 0 < i < v.len() implies (#[trigger] v[i]).0 != v[i - 1].0 by {
            if i < v.len() - 1 {
                assert(v[i] == patch_view(before)[i]);
            }
            assert(v[i - 1] == patch_view(before)[i - 1]);
        }
        assert forall|i: int| 0 <= i < v.len() - 1 implies (#[trigger] v[i]).1.len() > 0 by {
            assert(v[i] == patch_view(before)[i]);
        }
    }
}

/// Adds a deletion run then an insertion run, each only when nonempty,
/// after a last equal run (or at the start).
fn add_edits(out: &mut Vec<PatchOperation>, del_txt: String, ins_txt: String)
    requires
        merged_but_last(patch_view(old(out)@)),
        old(out)@.len() > 0 ==> old(out)@.last().1@.len() > 0 && old(out)@.last().0 == PatchOpType::Eql,
    ensures
        patch_src(patch_view(final(out)@)) == patch_src(patch_view(old(out)@)) + del_txt@,
        patch_dst(patch_view(final(out)@)) == patch_dst(patch_view(old(out)@)) + ins_txt@,
        merged_but_last(patch_view(final(out)@)),
        final(out)@.len() > 0 ==> final(out)@.last().1@.len() > 0,
        final(out)@.len() == 0 || final(out)@.last().0 == PatchOpType::Eql ==> final(out)@ == old(out)@,
{
    let ghost o1 = patch_view(out@);
    let ghost del_v = del_txt@;
    let ghost ins_v = ins_txt@;
    if del_txt.as_str().unicode_len() != 0 {
        add_edit(out, PatchOpType::Del, del_txt);
        proof {
            lemma_texts_push(o1, (PatchOpType::Del, del_v));
        }
    } else {
        assert(patch_src(o1) + del_v =~= patch_src(o1));
    }
    let ghost o2 = patch_view(out@);
    assert(patch_src(o2) == patch_src(o1) + del_v);
    assert(patch_dst(o2) == patch_dst(o1));
    if ins_txt.as_str().unicode_len() != 0 {
        add_edit(out, PatchOpType::Ins, ins_txt);
        proof {
            lemma_texts_push(o2, (PatchOpType::Ins, ins_v));
        }
    } else {
        assert(patch_dst(o2) + ins_v =~= patch_dst(o2));
    }
}

/// Closes a group of deletions and insertions before the equal run `cur`:
/// their common prefix goes to the equal run before them (or a new one at
/// the start), their common suffix to the front of `cur`; what remains is
/// one deletion then one insertion, either left out when empty; `cur` then
/// joins a preceding equal run or follows.
fn close_group(out: &mut Vec<PatchOperation>, del_txt: String, ins_txt: String, cur: String)
    requires
        merged_but_last(patch_view(old(out)@)),
        old(out)@.len() > 0 ==> old(out)@.last().1@.len() > 0 && old(out)@.last().0 == PatchOpType::Eql,
    ensures
        patch_src(patch_view(final(out)@)) == patch_src(patch_view(old(out)@)) + del_txt@ + cur@,
        patch_dst(patch_view(final(out)@)) == patch_dst(patch_view(old(out)@)) + ins_txt@ + cur@,
        merged_but_last(patch_view(final(out)@)),
        final(out)@.len() > 0,
        final(out)@.last().0 == PatchOpType::Eql,
        cur@.len() > 0 ==> final(out)@.last().1@.len() > 0,
{
    let ghost o0 = patch_view(out@);
    let ghost del0 = del_txt@;
    let ghost ins0 = ins_txt@;
    let ghost cur0 = cur@;
    let (pre, del_txt, ins_txt, suf) = split_affixes(del_txt, ins_txt);
    let ghost pre_v = pre@;
    let ghost del_v = del_txt@;
    let ghost ins_v = ins_txt@;
    let ghost suf_v = suf@;
    if pre.as_str().unicode_len() != 0 {
        add_equal(out, pre);
    } else {
        assert(patch_src(o0) + pre_v =~= patch_src(o0));
        assert(patch_dst(o0) + pre_v =~= patch_dst(o0));
    }
    let ghost o1 = patch_view(out@);
    add_edits(out, del_txt, ins_txt);
    let ghost o3 = patch_view(out@);
    let mut joined = suf;
    joined.append(cur.as_str());
    add_equal(out, joined);
    proof {
        let o4 = patch_view(out@);
        assert(patch_src(o4) == patch_src(o0) + pre_v + del_v + (suf_v + cur0));
        assert(patch_src(o4) =~= patch_src(o0) + del0 + cur0);
        assert(patch_dst(o4) == patch_dst(o0) + pre_v + ins_v + (suf_v + cur0));
        assert(patch_dst(o4) =~= patch_dst(o0) + ins0 + cur0);
    }
}

/// One merging pass over a patch: empty runs are dropped, each group of
/// deletions and insertions between equal runs becomes at most one deletion
/// then one insertion with their common prefix and suffix moved into the
/// neighbouring equal runs, and neighbouring equal runs are joined.
fn merge_pass(diff: &Vec<PatchOperation>) -> (res: Vec<PatchOperation>)
    ensures
        patch_src(patch_view(res@)) == patch_src(patch_view(diff@)),
        patch_dst(patch_view(res@)) == patch_dst(patch_view(diff@)),
        is_merged(patch_view(res@)),
{
    let ghost pv = patch_view(diff@);
    let mut out: Vec<PatchOperation> = Vec::new();
    let mut del_txt = String::new();
    let mut ins_txt = String::new();
    let mut i: usize = 0;
    assert(pv.take(0) =~= Seq::<(PatchOpType, Seq<char>)>::empty());
    assert(patch_view(out@) =~= Seq::<(PatchOpType, Seq<char>)>::empty());
    while i < diff.len()
        invariant
            i <= diff@.len(),
            pv == patch_view(diff@),
            merged_but_last(patch_view(out@)),
            out@.len() > 0 ==> out@.last().1@.len() > 0 && out@.last().0 == PatchOpType::Eql,
            patch_src(patch_view(out@)) + del_txt@ == patch_src(pv.take(i as int)),
            patch_dst(patch_view(out@)) + ins_txt@ == patch_dst(pv.take(i as int)),
        decreases diff.len() - i,
    {
        proof {
            assert(pv.take(i + 1).drop_last() =~= pv.take(i as int));
            assert(pv.take(i + 1).last() == pv[i as int]);
            assert(pv[i as int] == (diff@[i as int].0, diff@[i as int].1@));
        }
        let t = diff[i].0;
        let txt = diff[i].1.clone();
        if txt.as_str().unicode_len() == 0 {
            proof {
                assert(patch_src(pv.take(i + 1)) =~= patch_src(pv.take(i as int)));
                assert(patch_dst(pv.take(i + 1)) =~= patch_dst(pv.take(i as int)));
            }
        } else {
            match t {
                PatchOpType::Ins => {
                    ins_txt.append(txt.as_str());
                    proof {
                        assert(patch_src(pv.take(i + 1)) =~= patch_src(pv.take(i as int)));
                    }
                },
                PatchOpType::Del => {
                    del_txt.append(txt.as_str());
                    proof {
                        assert(patch_dst(pv.take(i + 1)) =~= patch_dst(pv.take(i as int)));
                    }
                },
                PatchOpType::Eql => {
                    let ghost o0 = patch_view(out@);
                    let ghost d = del_txt@;
                    let ghost n = ins_txt@;
                    close_group(&mut out, del_txt, ins_txt, txt);
                    del_txt = String::new();
                    ins_txt = String::new();
                    proof {
                        assert(patch_src(patch_view(out@)) + del_txt@ =~= patch_src(o0) + d + diff@[i as int].1@);
                        assert(patch_dst(patch_view(out@)) + ins_txt@ =~= patch_dst(o0) + n + diff@[i as int].1@);
                    }
                },
            }
        }
        i = i + 1;
    }
    assert(pv.take(diff@.len() as int) =~= pv);
    let ghost o0 = patch_view(out@);
    let ghost d = del_txt@;
    let ghost n = ins_txt@;
    close_group(&mut out, del_txt, ins_txt, String::new());
    proof {
        assert(patch_src(patch_view(out@)) =~= patch_src(o0) + d);
        assert(patch_dst(patch_view(out@)) =~= patch_dst(o0) + n);
    }
    let last = out.len() - 1;
    if out[last].1.as_str().unicode_len() == 0 {
        let ghost before = out@;
        let ghost bv = patch_view(before);
        let _ = out.pop();
        proof {
            assert(out@ =~= before.drop_last());
            assert(patch_view(out@) =~= bv.drop_last());
            assert(bv.last().1 =~= Seq::<char>::empty());
            assert(patch_src(bv) =~= patch_src(bv.drop_last()));
            assert(patch_dst(bv) =~= patch_dst(bv.drop_last()));
            let v = patch_view(out@);
            assert forall|k: int| 0 <= k < v.len() implies (#[trigger] v[k]).1.len() > 0 by {
                assert(v[k] == bv[k]);
            }
            assert forall|k: int| 0 < k < v.len() implies (#[trigger] v[k]).0 != v[k - 1].0 by {
                assert(v[k] == bv[k]);
                assert(v[k - 1] == bv[k - 1]);
            }
        }
    } else {
        proof {
            let v = patch_view(out@);
            assert forall|k: int| 0 <= k < v.len() implies (#[trigger] v[k]).1.len() > 0 by {
                if k == v.len() - 1 {
                    assert(v[k] == v.last());
                }
            }
        }
    }
    out
}

/// Whether `s` ends with `t`.
pub fn text_ends_with(s: &str, t: &str) -> (res: bool)
    ensures
        res == (t@.len() <= s@.len() && s@.skip(s@.len() - t@.len()) == t@),
{
    let a = crate::text::str_chars(s);
    let b = crate::text::str_chars(t);
    if b.len() > a.len() {
        return false;
    }
    let off = a.len() - b.len();
    let mut k: usize = 0;
    while k < b.len()
        invariant
            k <= b@.len(),
            a@ == s@,
            b@ == t@,
            off + b@.len() == a@.len(),
            off + b.len() == a.len(),
            forall|j: int| 0 <= j < k ==> a@[off + j] == b@[j],
        decreases b.len() - k,
    {
        if a[off + k] != b[k] {
            assert(a@.skip(off as int)[k as int] != b@[k as int]);
            return false;
        }
        k = k + 1;
    }
    assert(a@.skip(off as int) =~= b@);
    true
}

/// Whether `s` starts with `t`.
fn text_starts_with(s: &str, t: &str) -> (res: bool)
    ensures
        res == (t@.len() <= s@.len() && s@.take(t@.len() as int) == t@),
{
    let a = crate::text::str_chars(s);
    let b = crate::text::str_chars(t);
    if b.len() > a.len() {
        return false;
    }
    let mut k: usize = 0;
    while k < b.len()
        invariant
            k <= b@.len(),
            a@ == s@,
            b@ == t@,
            b@.len() <= a@.len(),
            forall|j: int| 0 <= j < k ==> a@[j] == b@[j],
        decreases b.len() - k,
    {
        if a[k] != b[k] {
            assert(a@.take(b@.len() as int)[k as int] != b@[k as int]);
            return false;
        }
        k = k + 1;
    }
    assert(a@.take(b@.len() as int) =~= b@);
    true
}

/// The text `a` followed by the text `b`.
pub fn joined(a: &str, b: &str) -> (res: String)
    ensures
        res@ == a@ + b@,
{
    let mut out = a.to_owned();
    out.append(b);
    out
}

/// The texts of a run list are those of its parts around a window.
proof fn lemma_texts_window(v: Seq<(PatchOpType, Seq<char>)>, lo: int, hi: int)
    requires
        0 <= lo <= hi <= v.len(),
    ensures
        patch_src(v) == patch_src(v.take(lo)) + patch_src(v.subrange(lo, hi)) + patch_src(v.skip(hi)),
        patch_dst(v) == patch_dst(v.take(lo)) + patch_dst(v.subrange(lo, hi)) + patch_dst(v.skip(hi)),
{
    assert(v =~= v.take(lo) + v.subrange(lo, hi) + v.skip(hi));
    lemma_texts_concat(v.take(lo) + v.subrange(lo, hi), v.skip(hi));
    lemma_texts_concat(v.take(lo), v.subrange(lo, hi));
}

/// Shifting a run left over the equal run before it keeps the texts.
proof fn lemma_shift_left_texts(s0: Seq<char>, left: Seq<char>, s2: Seq<char>, kind: PatchOpType)
    ensures
        patch_src(seq![(PatchOpType::Eql, s0), (kind, left + s0), (PatchOpType::Eql, s2)]) == patch_src(
            seq![(kind, s0 + left), (PatchOpType::Eql, s0 + s2)],
        ),
        patch_dst(seq![(PatchOpType::Eql, s0), (kind, left + s0), (PatchOpType::Eql, s2)]) == patch_dst(
            seq![(kind, s0 + left), (PatchOpType::Eql, s0 + s2)],
        ),
{
    let a = seq![(PatchOpType::Eql, s0), (kind, left + s0), (PatchOpType::Eql, s2)];
    let b = seq![(kind, s0 + left), (PatchOpType::Eql, s0 + s2)];
    reveal_with_fuel(patch_src, 4);
    reveal_with_fuel(patch_dst, 4);
    assert(a.drop_last().drop_last().drop_last() =~= Seq::<(PatchOpType, Seq<char>)>::empty());
    assert(b.drop_last().drop_last() =~= Seq::<(PatchOpType, Seq<char>)>::empty());
    assert(patch_src(a) =~= patch_src(b));
    assert(patch_dst(a) =~= patch_dst(b));
}

/// Shifting a run right over the equal run after it keeps the texts.
proof fn lemma_shift_right_texts(s0: Seq<char>, right: Seq<char>, s2: Seq<char>, kind: PatchOpType)
    ensures
        patch_src(seq![(PatchOpType::Eql, s0), (kind, s2 + right), (PatchOpType::Eql, s2)]) == patch_src(
            seq![(PatchOpType::Eql, s0 + s2), (kind, right + s2)],
        ),
        patch_dst(seq![(PatchOpType::Eql, s0), (kind, s2 + right), (PatchOpType::Eql, s2)]) == patch_dst(
            seq![(PatchOpType::Eql, s0 + s2), (kind, right + s2)],
        ),
{
    let a = seq![(PatchOpType::Eql, s0), (kind, s2 + right), (PatchOpType::Eql, s2)];
    let b = seq![(PatchOpType::Eql, s0 + s2), (kind, right + s2)];
    reveal_with_fuel(patch_src, 4);
    reveal_with_fuel(patch_dst, 4);
    assert(a.drop_last().drop_last().drop_last() =~= Seq::<(PatchOpType, Seq<char>)>::empty());
    assert(b.drop_last().drop_last() =~= Seq::<(PatchOpType, Seq<char>)>::empty());
    assert(patch_src(a) =~= patch_src(b));
    assert(patch_dst(a) =~= patch_dst(b));
}

/// Replacing a window of runs by runs with the same texts keeps the texts.
proof fn lemma_replace_window(
    v: Seq<(PatchOpType, Seq<char>)>,
    lo: int,
    a: Seq<(PatchOpType, Seq<char>)>,
    b: Seq<(PatchOpType, Seq<char>)>,
)
    requires
        0 <= lo,
        lo + a.len() <= v.len(),
        v.subrange(lo, lo + a.len()) == a,
        patch_src(a) == patch_src(b),
        patch_dst(a) == patch_dst(b),
    ensures
        patch_src(v.take(lo) + b + v.skip(lo + a.len())) == patch_src(v),
        patch_dst(v.take(lo) + b + v.skip(lo + a.len())) == patch_dst(v),
{
    lemma_texts_window(v, lo, lo + a.len());
    lemma_texts_concat(v.take(lo) + b, v.skip(lo + a.len()));
    lemma_texts_concat(v.take(lo), b);
}

/// Shifts the run at `ptr`, which ends with the text of the equal run
/// before it, left over that run.
fn shift_left_at(d: &mut Vec<PatchOperation>, ptr: usize, str0: String, left: &str, str2: String)
    requires
        1 <= ptr,
        ptr + 1 < old(d).len(),
        old(d)@[ptr - 1] == (PatchOpType::Eql, str0),
        old(d)@[ptr as int].1@ == left@ + str0@,
        old(d)@[ptr + 1] == (PatchOpType::Eql, str2),
    ensures
        patch_src(patch_view(final(d)@)) == patch_src(patch_view(old(d)@)),
        patch_dst(patch_view(final(d)@)) == patch_dst(patch_view(old(d)@)),
        final(d)@.len() + 1 == old(d)@.len(),
        patch_view(final(d)@) == patch_view(old(d)@).take(ptr - 1) + seq![
            (old(d)@[ptr as int].0, str0@ + left@),
            (PatchOpType::Eql, str0@ + str2@),
        ] + patch_view(old(d)@).skip(ptr + 2),
{
    let kind = d[ptr].0;
    let ghost v = patch_view(d@);
    let ghost lo = ptr - 1;
    let ghost a = seq![(PatchOpType::Eql, str0@), (kind, left@ + str0@), (PatchOpType::Eql, str2@)];
    let ghost b = seq![(kind, str0@ + left@), (PatchOpType::Eql, str0@ + str2@)];
    assert(v.subrange(lo, lo + 3) =~= a);
    let mid = joined(str0.as_str(), left);
    let next = joined(str0.as_str(), str2.as_str());
    d.set(ptr, (kind, mid));
    d.set(ptr + 1, (PatchOpType::Eql, next));
    d.remove(ptr - 1);
    proof {
        assert(patch_view(d@) =~= v.take(lo) + b + v.skip(lo + 3));
        lemma_shift_left_texts(str0@, left@, str2@, kind);
        lemma_replace_window(v, lo, a, b);
    }
}

/// Shifts the run at `ptr`, which starts with the text of the equal run
/// after it, right over that run.
fn shift_right_at(d: &mut Vec<PatchOperation>, ptr: usize, str0: String, right: &str, str2: String)
    requires
        1 <= ptr,
        ptr + 1 < old(d).len(),
        old(d)@[ptr - 1] == (PatchOpType::Eql, str0),
        old(d)@[ptr as int].1@ == str2@ + right@,
        old(d)@[ptr + 1] == (PatchOpType::Eql, str2),
    ensures
        patch_src(patch_view(final(d)@)) == patch_src(patch_view(old(d)@)),
        patch_dst(patch_view(final(d)@)) == patch_dst(patch_view(old(d)@)),
        final(d)@.len() + 1 == old(d)@.len(),
        patch_view(final(d)@) == patch_view(old(d)@).take(ptr - 1) + seq![
            (PatchOpType::Eql, str0@ + str2@),
            (old(d)@[ptr as int].0, right@ + str2@),
        ] + patch_view(old(d)@).skip(ptr + 2),
{
    let kind = d[ptr].0;
    let ghost v = patch_view(d@);
    let ghost lo = ptr - 1;
    let ghost a = seq![(PatchOpType::Eql, str0@), (kind, str2@ + right@), (PatchOpType::Eql, str2@)];
    let ghost b = seq![(PatchOpType::Eql, str0@ + str2@), (kind, right@ + str2@)];
    assert(v.subrange(lo, lo + 3) =~= a);
    let prev = joined(str0.as_str(), str2.as_str());
    let mid = joined(right, str2.as_str());
    d.set(ptr - 1, (PatchOpType::Eql, prev));
    d.set(ptr, (kind, mid));
    d.remove(ptr + 1);
    proof {
        assert(patch_view(d@) =~= v.take(lo) + b + v.skip(lo + 3));
        lemma_shift_right_texts(str0@, right@, str2@, kind);
        lemma_replace_window(v, lo, a, b);
    }
}

/// One shift at `ptr`, between two equal runs: the run there, when it ends
/// with the text of the equal run before it, moves left over that run; else,
/// when it starts with the text of the equal run after it, it moves right
/// over that run; `None` when it does neither.
pub open spec fn shift_at_spec(v: Seq<(PatchOpType, Seq<char>)>, ptr: int) -> Option<Seq<(PatchOpType, Seq<char>)>> {
    let s0 = v[ptr - 1].1;
    let s1 = v[ptr].1;
    let s2 = v[ptr + 1].1;
    let kind = v[ptr].0;
    if s0.len() <= s1.len() && s1.skip(s1.len() - s0.len()) == s0 {
        let left = s1.take(s1.len() - s0.len());
        Some(v.take(ptr - 1) + seq![(kind, s0 + left), (PatchOpType::Eql, s0 + s2)] + v.skip(ptr + 2))
    } else if s2.len() <= s1.len() && s1.take(s2.len() as int) == s2 {
        let right = s1.skip(s2.len() as int);
        Some(v.take(ptr - 1) + seq![(PatchOpType::Eql, s0 + s2), (kind, right + s2)] + v.skip(ptr + 2))
    } else {
        None
    }
}

/// A shifting pass from `ptr` on: at each position between two equal runs a
/// shift is tried (see `shift_at_spec`); the runs after the pass, and
/// whether a shift moved something (`changed` saying whether one did before
/// `ptr`).
pub open spec fn shift_from(v: Seq<(PatchOpType, Seq<char>)>, ptr: int, changed: bool) -> (Seq<(PatchOpType, Seq<char>)>, bool)
    decreases v.len() - ptr,
{
    if ptr < 1 || !(v.len() > 0 && ptr < v.len() - 1) {
        (v, changed)
    } else if v[ptr - 1].0 == PatchOpType::Eql && v[ptr + 1].0 == PatchOpType::Eql {
        match shift_at_spec(v, ptr) {
            Some(w) => shift_from(w, ptr + 1, true),
            None => shift_from(v, ptr + 1, changed),
        }
    } else {
        shift_from(v, ptr + 1, changed)
    }
}

/// At `ptr`, between two equal runs: a run ending with the text of the
/// first is shifted left over it, else one starting with the text of the
/// second is shifted right over it; one equal run goes. Says whether
/// anything moved.
fn shift_at(d: &mut Vec<PatchOperation>, ptr: usize) -> (changed: bool)
    requires
        1 <= ptr,
        ptr + 1 < old(d).len(),
        old(d)@[ptr - 1].0 == PatchOpType::Eql,
        old(d)@[ptr + 1].0 == PatchOpType::Eql,
    ensures
        patch_src(patch_view(final(d)@)) == patch_src(patch_view(old(d)@)),
        patch_dst(patch_view(final(d)@)) == patch_dst(patch_view(old(d)@)),
        !changed ==> final(d)@ == old(d)@,
        changed ==> final(d)@.len() + 1 == old(d)@.len(),
        match shift_at_spec(patch_view(old(d)@), ptr as int) {
            Some(w) => changed && patch_view(final(d)@) == w,
            None => !changed,
        },
{
    let str0 = d[ptr - 1].1.clone();
    let str1 = d[ptr].1.clone();
    let str2 = d[ptr + 1].1.clone();
    if text_ends_with(str1.as_str(), str0.as_str()) {
        let l1 = str1.as_str().unicode_len();
        let l0 = str0.as_str().unicode_len();
        let left = str1.as_str().substring_char(0, l1 - l0);
        assert(str1@ =~= left@ + str0@);
        shift_left_at(d, ptr, str0, left, str2);
        true
    } else if text_starts_with(str1.as_str(), str2.as_str()) {
        let l1 = str1.as_str().unicode_len();
        let l2 = str2.as_str().unicode_len();
        let right = str1.as_str().substring_char(l2, l1);
        assert(str1@ =~= str2@ + right@);
        shift_right_at(d, ptr, str0, right, str2);
        true
    } else {
        false
    }
}

/// One shifting pass over the runs from the second on (see `shift_at`).
/// Says whether anything moved.
fn shift_pass(d: &mut Vec<PatchOperation>) -> (changed: bool)
    ensures
        patch_src(patch_view(final(d)@)) == patch_src(patch_view(old(d)@)),
        patch_dst(patch_view(final(d)@)) == patch_dst(patch_view(old(d)@)),
        !changed ==> final(d)@ == old(d)@,
        (patch_view(final(d)@), changed) == shift_from(patch_view(old(d)@), 1, false),
{
    let ghost s0 = patch_src(patch_view(d@));
    let ghost t0 = patch_dst(patch_view(d@));
    let mut changes = false;
    let mut ptr: usize = 1;
    while d.len() > 0 && ptr < d.len() - 1
        invariant
            1 <= ptr,
            patch_src(patch_view(d@)) == s0,
            patch_dst(patch_view(d@)) == t0,
            s0 == patch_src(patch_view(old(d)@)),
            t0 == patch_dst(patch_view(old(d)@)),
            !changes ==> d@ == old(d)@,
            shift_from(patch_view(old(d)@), 1, false) == shift_from(patch_view(d@), ptr as int, changes),
        decreases d.len() - ptr,
    {
        if d[ptr - 1].0 == PatchOpType::Eql && d[ptr + 1].0 == PatchOpType::Eql {
            if shift_at(d, ptr) {
                changes = true;
            }
        }
        ptr = ptr + 1;
    }
    changes
}

/// Merges a raw diff into its final form: a merging pass, then shifting
/// passes each followed by a merging pass while a shift moves something (at
/// most twice as many shifting passes as the merged patch has runs, plus
/// two).
fn cleanup_merge(diff: &Vec<PatchOperation>) -> (res: Patch)
    ensures
        patch_src(patch_view(res@)) == patch_src(patch_view(diff@)),
        patch_dst(patch_view(res@)) == patch_dst(patch_view(diff@)),
        is_merged(patch_view(res@)),
{
    let mut d = merge_pass(diff);
    let mut rounds: usize = d.len().saturating_add(d.len()).saturating_add(2);
    loop
        invariant
            patch_src(patch_view(d@)) == patch_src(patch_view(diff@)),
            patch_dst(patch_view(d@)) == patch_dst(patch_view(diff@)),
            is_merged(patch_view(d@)),
        decreases rounds,
    {
        if rounds == 0 {
            break;
        }
        let changed = shift_pass(&mut d);
        if !changed {
            break;
        }
        d = merge_pass(&d);
        rounds = rounds - 1;
    }
    d
}

/// Whether `short` occurs in `long` at position `i`.
pub open spec fn occurs_at(long: Seq<char>, short: Seq<char>, i: int) -> bool {
    0 <= i && i + short.len() <= long.len() && long.subrange(i, i + short.len()) == short
}

/// The first position at which `short` occurs in `long`.
fn find_chars(long: &Vec<char>, short: &Vec<char>) -> (res: Option<usize>)
    ensures
        match res {
            Some(i) => occurs_at(long@, short@, i as int) && forall|j: int|
                0 <= j < i ==> !#[trigger] occurs_at(long@, short@, j),
            None => forall|j: int| !#[trigger] occurs_at(long@, short@, j),
        },
{
    if short.len() > long.len() {
        return None;
    }
    let last = long.len() - short.len();
    let mut i: usize = 0;
    while i <= last
        invariant
            last + short@.len() == long@.len(),
            last + short.len() == long.len(),
            forall|j: int| 0 <= j < i ==> !#[trigger] occurs_at(long@, short@, j),
        decreases last + 1 - i,
    {
        let mut k: usize = 0;
        let mut same = true;
        while k < short.len()
            invariant
                i <= last,
                last + short.len() == long.len(),
                k <= short@.len(),
                same ==> forall|q: int| 0 <= q < k ==> long@[i + q] == short@[q],
                !same ==> !occurs_at(long@, short@, i as int),
            decreases short.len() - k,
        {
            if long[i + k] != short[k] {
                if same {
                    assert(long@.subrange(i as int, i + short@.len())[k as int] != short@[k as int]);
                }
                same = false;
            }
            k = k + 1;
        }
        if same {
            assert(long@.subrange(i as int, i + short@.len()) =~= short@);
            return Some(i);
        }
        if i == last {
            assert forall|j: int| !#[trigger] occurs_at(long@, short@, j) by {
                if 0 <= j && j + short@.len() <= long@.len() {
                    assert(j <= last);
                }
            }
            return None;
        }
        i = i + 1;
    }
    None
}

/// The patch that deletes all of `src` and inserts all of `dst`.
fn replace_all(src: &str, dst: &str) -> (res: Patch)
    ensures
        patch_src(patch_view(res@)) == src@,
        patch_dst(patch_view(res@)) == dst@,
{
    let mut out: Patch = Vec::new();
    out.push((PatchOpType::Del, src.to_owned()));
    out.push((PatchOpType::Ins, dst.to_owned()));
    proof {
        let v = patch_view(out@);
        assert(v =~= seq![(PatchOpType::Del, src@), (PatchOpType::Ins, dst@)]);
        reveal_with_fuel(patch_src, 3);
        reveal_with_fuel(patch_dst, 3);
        assert(v.drop_last().drop_last() =~= Seq::<(PatchOpType, Seq<char>)>::empty());
        assert(patch_src(v) =~= src@);
        assert(patch_dst(v) =~= dst@);
    }
    out
}

/// The text a run adds to the source.
pub open spec fn src_part(op: (PatchOpType, Seq<char>)) -> Seq<char> {
    if op.0 != PatchOpType::Ins {
        op.1
    } else {
        Seq::empty()
    }
}

/// The text a run adds to the destination.
pub open spec fn dst_part(op: (PatchOpType, Seq<char>)) -> Seq<char> {
    if op.0 != PatchOpType::Del {
        op.1
    } else {
        Seq::empty()
    }
}

/// The texts of a patch of three runs.
proof fn lemma_texts_three(a: (PatchOpType, Seq<char>), b: (PatchOpType, Seq<char>), c: (PatchOpType, Seq<char>))
    ensures
        patch_src(seq![a, b, c]) == src_part(a) + src_part(b) + src_part(c),
        patch_dst(seq![a, b, c]) == dst_part(a) + dst_part(b) + dst_part(c),
{
    let v = seq![a, b, c];
    reveal_with_fuel(patch_src, 4);
    reveal_with_fuel(patch_dst, 4);
    assert(v.drop_last().drop_last().drop_last() =~= Seq::<(PatchOpType, Seq<char>)>::empty());
    assert(v.drop_last().drop_last() =~= seq![a]);
    assert(v.drop_last() =~= seq![a, b]);
    assert(patch_src(v) =~= src_part(a) + src_part(b) + src_part(c));
    assert(patch_dst(v) =~= dst_part(a) + dst_part(b) + dst_part(c));
}

/// The texts of a patch of one run.
proof fn lemma_texts_one(a: (PatchOpType, Seq<char>))
    ensures
        patch_src(seq![a]) == src_part(a),
        patch_dst(seq![a]) == dst_part(a),
{
    let v = seq![a];
    reveal_with_fuel(patch_src, 2);
    reveal_with_fuel(patch_dst, 2);
    assert(v.drop_last() =~= Seq::<(PatchOpType, Seq<char>)>::empty());
    assert(v.last() == a);
    assert(patch_src(v) =~= src_part(a));
    assert(patch_dst(v) =~= dst_part(a));
}

/// A diff of two texts with no common prefix nor suffix: an insertion or a
/// deletion when one is empty; the shorter text kept between two edits when
/// the longer contains it; a replacement when the shorter is one character;
/// else the bisection of the edit graph.
fn diff_no_common_affix(src: &str, dst: &str) -> (res: Patch)
    requires
        src@.len() + dst@.len() <= usize::MAX / 4,
    ensures
        patch_src(patch_view(res@)) == src@,
        patch_dst(patch_view(res@)) == dst@,
    decreases src@.len() + dst@.len(), 2int,
{
    if src.unicode_len() == 0 {
        let mut out: Patch = Vec::new();
        out.push((PatchOpType::Ins, dst.to_owned()));
        proof {
            assert(patch_view(out@) =~= seq![(PatchOpType::Ins, dst@)]);
            lemma_texts_one((PatchOpType::Ins, dst@));
            assert(src@ =~= Seq::<char>::empty());
        }
        return out;
    }
    if dst.unicode_len() == 0 {
        let mut out: Patch = Vec::new();
        out.push((PatchOpType::Del, src.to_owned()));
        proof {
            assert(patch_view(out@) =~= seq![(PatchOpType::Del, src@)]);
            lemma_texts_one((PatchOpType::Del, src@));
            assert(dst@ =~= Seq::<char>::empty());
        }
        return out;
    }
    let sc = crate::text::str_chars(src);
    let dc = crate::text::str_chars(dst);
    let src_longer = sc.len() > dc.len();
    let found = if src_longer {
        find_chars(&sc, &dc)
    } else {
        find_chars(&dc, &sc)
    };
    if let Some(index) = found {
        let long = if src_longer {
            &sc
        } else {
            &dc
        };
        let short_len = if src_longer {
            dc.len()
        } else {
            sc.len()
        };
        let start = crate::text::chars_to_string(vstd::slice::slice_subrange(long.as_slice(), 0, index));
        let end = crate::text::chars_to_string(
            vstd::slice::slice_subrange(long.as_slice(), index + short_len, long.len()),
        );
        let kind = if src_longer {
            PatchOpType::Del
        } else {
            PatchOpType::Ins
        };
        let short = if src_longer {
            dst.to_owned()
        } else {
            src.to_owned()
        };
        let ghost sv = short@;
        let ghost a = (kind, start@);
        let ghost b = (PatchOpType::Eql, short@);
        let ghost c = (kind, end@);
        let mut out: Patch = Vec::new();
        out.push((kind, start));
        out.push((PatchOpType::Eql, short));
        out.push((kind, end));
        proof {
            assert(patch_view(out@) =~= seq![a, b, c]);
            lemma_texts_three(a, b, c);
            assert(long@.subrange(index as int, index + short_len) == sv);
            assert(long@ =~= long@.subrange(0, index as int) + sv + long@.subrange(index + short_len, long@.len() as int));
            assert(patch_src(patch_view(out@)) =~= src@);
            assert(patch_dst(patch_view(out@)) =~= dst@);
        }
        return out;
    }
    let short_count = if src_longer {
        dc.len()
    } else {
        sc.len()
    };
    if short_count == 1 {
        return replace_all(src, dst);
    }
    bisect(src, dst)
}

/// A diff of two texts split at `x` characters of the first and `y` of the
/// second: the diffs of the two parts, one after the other.
fn bisect_split(text1: &str, text2: &str, x: usize, y: usize) -> (res: Patch)
    requires
        text1@.len() + text2@.len() <= usize::MAX / 4,
        x <= text1@.len(),
        y <= text2@.len(),
        0 < x + y < text1@.len() + text2@.len(),
    ensures
        patch_src(patch_view(res@)) == text1@,
        patch_dst(patch_view(res@)) == text2@,
    decreases text1@.len() + text2@.len(), 0int,
{
    let t1 = crate::text::str_chars(text1);
    let t2 = crate::text::str_chars(text2);
    let left1 = crate::text::chars_to_string(vstd::slice::slice_subrange(t1.as_slice(), 0, x));
    let left2 = crate::text::chars_to_string(vstd::slice::slice_subrange(t2.as_slice(), 0, y));
    let right1 = crate::text::chars_to_string(vstd::slice::slice_subrange(t1.as_slice(), x, t1.len()));
    let right2 = crate::text::chars_to_string(vstd::slice::slice_subrange(t2.as_slice(), y, t2.len()));
    let mut diffs_a = diff_(left1.as_str(), left2.as_str());
    let mut diffs_b = diff_(right1.as_str(), right2.as_str());
    let ghost va = patch_view(diffs_a@);
    let ghost vb = patch_view(diffs_b@);
    diffs_a.append(&mut diffs_b);
    proof {
        assert(patch_view(diffs_a@) =~= va + vb);
        lemma_texts_concat(va, vb);
        assert(t1@ =~= left1@ + right1@);
        assert(t2@ =~= left2@ + right2@);
    }
    diffs_a
}

/// The point at which the forward and backward searches of the edit graph
/// of texts of `n` and `m` characters meet, when it splits both texts into
/// smaller parts.
fn split_ok(x: i64, y: i64, n: i64, m: i64) -> (res: bool)
    requires
        0 <= n,
        0 <= m,
        n + m <= i64::MAX,
    ensures
        res == (0 <= x <= n && 0 <= y <= m && 0 < x + y < n + m),
{
    0 <= x && x <= n && 0 <= y && y <= m && (x > 0 || y > 0) && (x < n || y < m)
}

/// The diff found by bisecting the edit graph (Myers' search from both ends
/// until the paths meet, then the two halves diffed on their own); a
/// replacement of the whole when the searches never meet.
#[verifier::rlimit(60)]
fn bisect(text1: &str, text2: &str) -> (res: Patch)
    requires
        text1@.len() + text2@.len() <= usize::MAX / 4,
    ensures
        patch_src(patch_view(res@)) == text1@,
        patch_dst(patch_view(res@)) == text2@,
    decreases text1@.len() + text2@.len(), 1int,
{
    let a = crate::text::str_chars(text1);
    let b = crate::text::str_chars(text2);
    let n = a.len();
    let m = b.len();
    let ni = n as i64;
    let mi = m as i64;
    let max_d: i64 = (ni + mi + 1) / 2;
    let v_offset = max_d;
    let v_length: usize = (2 * max_d + 2) as usize;
    let mut v1: Vec<i64> = vec![-1i64; v_length];
    let mut v2: Vec<i64> = vec![-1i64; v_length];
    v1.set((v_offset + 1) as usize, 0);
    v2.set((v_offset + 1) as usize, 0);
    let delta = ni - mi;
    let front = delta % 2 != 0;
    let mut k1start: i64 = 0;
    let mut k1end: i64 = 0;
    let mut k2start: i64 = 0;
    let mut k2end: i64 = 0;
    let mut d: i64 = 0;
    while d < max_d
        invariant
            a@ == text1@,
            b@ == text2@,
            n == a@.len(),
            m == b@.len(),
            ni == n,
            mi == m,
            n + m <= usize::MAX / 4,
            max_d == (ni + mi + 1) / 2,
            v_offset == max_d,
            v_length == 2 * max_d + 2,
            v1@.len() == v_length,
            v2@.len() == v_length,
            delta == ni - mi,
            0 <= d <= max_d,
            0 <= k1start <= 2 * d,
            0 <= k1end <= 2 * d,
            0 <= k2start <= 2 * d,
            0 <= k2end <= 2 * d,
        decreases max_d - d,
    {
        let mut k1 = -d + k1start;
        while k1 <= d - k1end
            invariant
                a@ == text1@,
                b@ == text2@,
                n == a@.len(),
                m == b@.len(),
                ni == n,
                mi == m,
                n + m <= usize::MAX / 4,
                v_offset == max_d,
                v_length == 2 * max_d + 2,
                v1@.len() == v_length,
                v2@.len() == v_length,
                delta == ni - mi,
                0 <= d < max_d,
                max_d <= (ni + mi + 1) / 2,
                0 <= k1start <= 2 * d + 2,
                0 <= k1end <= 2 * d + 2,
                -d + k1start <= k1 <= d + 2,
            decreases d + 2 - k1,
        {
            let k1_offset = v_offset + k1;
            let v10 = v1[(k1_offset - 1) as usize];
            let v11 = v1[(k1_offset + 1) as usize];
            let mut x1 = if k1 == -d || (k1 != d && v10 < v11) {
                v11
            } else {
                match v10.checked_add(1) {
                    Some(x) => x,
                    None => {
                        return replace_all(text1, text2);
                    },
                }
            };
            let mut y1 = match x1.checked_sub(k1) {
                Some(y) => y,
                None => {
                    return replace_all(text1, text2);
                },
            };
            while x1 < ni && y1 < mi && x1 >= 0 && y1 >= 0 && a[x1 as usize] == b[y1 as usize]
                invariant
                    ni == a@.len(),
                    mi == b@.len(),
                decreases ni - x1,
            {
                x1 = x1 + 1;
                y1 = y1 + 1;
            }
            v1.set(k1_offset as usize, x1);
            if x1 > ni {
                k1end = k1end + 2;
            } else if y1 > mi {
                k1start = k1start + 2;
            } else if front {
                let k2_offset = v_offset + delta - k1;
                if k2_offset >= 0 && k2_offset < v_length as i64 {
                    let v2o = v2[k2_offset as usize];
                    if v2o != -1 {
                        if let Some(lim) = ni.checked_sub(v2o) {
                            if x1 >= lim && split_ok(x1, y1, ni, mi) {
                                return bisect_split(text1, text2, x1 as usize, y1 as usize);
                            }
                        }
                    }
                }
            }
            k1 = k1 + 2;
        }
        let mut k2 = -d + k2start;
        while k2 <= d - k2end
            invariant
                a@ == text1@,
                b@ == text2@,
                n == a@.len(),
                m == b@.len(),
                ni == n,
                mi == m,
                n + m <= usize::MAX / 4,
                v_offset == max_d,
                v_length == 2 * max_d + 2,
                v1@.len() == v_length,
                v2@.len() == v_length,
                delta == ni - mi,
                0 <= d < max_d,
                max_d <= (ni + mi + 1) / 2,
                0 <= k2start <= 2 * d + 2,
                0 <= k2end <= 2 * d + 2,
                -d + k2start <= k2 <= d + 2,
            decreases d + 2 - k2,
        {
            let k2_offset = v_offset + k2;
            let v20 = v2[(k2_offset - 1) as usize];
            let v21 = v2[(k2_offset + 1) as usize];
            let mut x2 = if k2 == -d || (k2 != d && v20 < v21) {
                v21
            } else {
                match v20.checked_add(1) {
                    Some(x) => x,
                    None => {
                        return replace_all(text1, text2);
                    },
                }
            };
            let mut y2 = match x2.checked_sub(k2) {
                Some(y) => y,
                None => {
                    return replace_all(text1, text2);
                },
            };
            while x2 < ni && y2 < mi && x2 >= 0 && y2 >= 0 && a[(ni - x2 - 1) as usize] == b[(mi - y2
                - 1) as usize]
                invariant
                    ni == a@.len(),
                    mi == b@.len(),
                decreases ni - x2,
            {
                x2 = x2 + 1;
                y2 = y2 + 1;
            }
            v2.set(k2_offset as usize, x2);
            if x2 > ni {
                k2end = k2end + 2;
            } else if y2 > mi {
                k2start = k2start + 2;
            } else if !front {
                let k1_offset = v_offset + delta - k2;
                if k1_offset >= 0 && k1_offset < v_length as i64 {
                    let x1 = v1[k1_offset as usize];
                    if x1 != -1 {
                        if let Some(y1) = x1.checked_add(v_offset - k1_offset) {
                            if let Some(x2f) = ni.checked_sub(x2) {
                                if x1 >= x2f && split_ok(x1, y1, ni, mi) {
                                    return bisect_split(text1, text2, x1 as usize, y1 as usize);
                                }
                            }
                        }
                    }
                }
            }
            k2 = k2 + 2;
        }
        d = d + 1;
    }
    replace_all(text1, text2)
}

/// The diff of two texts without their common prefix and suffix, which
/// join it as equal runs before the whole is merged.
fn diff_(src: &str, dst: &str) -> (res: Patch)
    requires
        src@.len() + dst@.len() <= usize::MAX / 4,
    ensures
        patch_src(patch_view(res@)) == src@,
        patch_dst(patch_view(res@)) == dst@,
        is_merged(patch_view(res@)),
        src@ == dst@ ==> patch_view(res@) == (if src@.len() == 0 {
            Seq::<(PatchOpType, Seq<char>)>::empty()
        } else {
            seq![(PatchOpType::Eql, src@)]
        }),
    decreases src@.len() + dst@.len(), 3int,
{
    let src_s = src.to_owned();
    let dst_s = dst.to_owned();
    if src_s == dst_s {
        let mut out: Patch = Vec::new();
        if src.unicode_len() == 0 {
            proof {
                assert(patch_view(out@) =~= Seq::<(PatchOpType, Seq<char>)>::empty());
                assert(src@ =~= Seq::<char>::empty());
            }
            return out;
        }
        out.push((PatchOpType::Eql, src_s));
        proof {
            assert(patch_view(out@) =~= seq![(PatchOpType::Eql, src@)]);
            lemma_texts_one((PatchOpType::Eql, src@));
        }
        return out;
    }
    let prefix_len = pfx(src, dst);
    proof {
        lemma_pfx_split(src@, dst@);
    }
    let src_u = utf16_units(src);
    let dst_u = utf16_units(dst);
    let prefix = from_utf16(vstd::slice::slice_subrange(src_u.as_slice(), 0, prefix_len));
    let src_mid = from_utf16(vstd::slice::slice_subrange(src_u.as_slice(), prefix_len, src_u.len()));
    let dst_mid = from_utf16(vstd::slice::slice_subrange(dst_u.as_slice(), prefix_len, dst_u.len()));
    proof {
        assert(src_u@.subrange(0, prefix_len as int) =~= src_u@.take(prefix_len as int));
        assert(src_u@.subrange(prefix_len as int, src_u@.len() as int) =~= src_u@.skip(prefix_len as int));
        assert(dst_u@.subrange(prefix_len as int, dst_u@.len() as int) =~= dst_u@.skip(prefix_len as int));
        assert(prefix@ + src_mid@ == src@);
        assert(prefix@ + dst_mid@ == dst@);
    }
    let suffix_len = sfx(src_mid.as_str(), dst_mid.as_str());
    proof {
        lemma_sfx_split(src_mid@, dst_mid@);
    }
    let src_mid_u = utf16_units(src_mid.as_str());
    let dst_mid_u = utf16_units(dst_mid.as_str());
    let sl = src_mid_u.len();
    let dl = dst_mid_u.len();
    let suffix = from_utf16(vstd::slice::slice_subrange(src_mid_u.as_slice(), sl - suffix_len, sl));
    let src2 = from_utf16(vstd::slice::slice_subrange(src_mid_u.as_slice(), 0, sl - suffix_len));
    let dst2 = from_utf16(vstd::slice::slice_subrange(dst_mid_u.as_slice(), 0, dl - suffix_len));
    proof {
        assert(src_mid_u@.subrange(sl - suffix_len, sl as int) =~= src_mid_u@.skip(sl - suffix_len));
        assert(src_mid_u@.subrange(0, sl - suffix_len) =~= src_mid_u@.take(sl - suffix_len));
        assert(dst_mid_u@.subrange(0, dl - suffix_len) =~= dst_mid_u@.take(dl - suffix_len));
        assert(src2@ + suffix@ == src_mid@);
        assert(dst2@ + suffix@ == dst_mid@);
        assert(src@ =~= prefix@ + src2@ + suffix@);
        assert(dst@ =~= prefix@ + dst2@ + suffix@);
    }
    let mut d = diff_no_common_affix(src2.as_str(), dst2.as_str());
    let ghost v0 = patch_view(d@);
    if prefix.as_str().unicode_len() != 0 {
        let ghost pre = prefix@;
        d.insert(0, (PatchOpType::Eql, prefix));
        proof {
            assert(patch_view(d@) =~= seq![(PatchOpType::Eql, pre)] + v0);
            lemma_texts_concat(seq![(PatchOpType::Eql, pre)], v0);
            lemma_texts_one((PatchOpType::Eql, pre));
        }
    } else {
        assert(prefix@ =~= Seq::<char>::empty());
    }
    let ghost v1 = patch_view(d@);
    assert(patch_src(v1) =~= prefix@ + src2@);
    assert(patch_dst(v1) =~= prefix@ + dst2@);
    if suffix.as_str().unicode_len() != 0 {
        let ghost suf = suffix@;
        let ghost before = d@;
        d.push((PatchOpType::Eql, suffix));
        proof {
            lemma_view_push(before, (PatchOpType::Eql, suffix));
            lemma_texts_push(v1, (PatchOpType::Eql, suf));
        }
    } else {
        assert(suffix@ =~= Seq::<char>::empty());
    }
    assert(patch_src(patch_view(d@)) =~= src@);
    assert(patch_dst(patch_view(d@)) =~= dst@);
    cleanup_merge(&d)
}

/// A diff of two texts: a patch whose source is `src` and whose destination
/// is `dst`, with nonempty runs and no two neighbouring runs of one kind;
/// equal texts give one equal run (none when empty).
pub fn diff(src: &str, dst: &str) -> (res: Patch)
    requires
        src@.len() + dst@.len() <= usize::MAX / 4,
    ensures
        patch_src(patch_view(res@)) == src@,
        patch_dst(patch_view(res@)) == dst@,
        is_merged(patch_view(res@)),
        src@ == dst@ ==> patch_view(res@) == (if src@.len() == 0 {
            Seq::<(PatchOpType, Seq<char>)>::empty()
        } else {
            seq![(PatchOpType::Eql, src@)]
        }),
{
    diff_(src, dst)
}


/// Each character takes one or two UTF-16 units.
proof fn lemma_units_at_least_chars(s: Seq<char>)
    ensures
        utf16_of(s).len() >= s.len(),
    decreases s.len(),
{
    if s.len() > 0 {
        lemma_units_at_least_chars(s.drop_first());
    }
}

/// The last `k` units of `a` are the first `k` units of `b`.
pub open spec fn is_overlap(a: Seq<u16>, b: Seq<u16>, k: int) -> bool {
    0 <= k <= a.len() && k <= b.len() && a.skip(a.len() - k) == b.take(k)
}

/// Units without surrogates keep having none in a part.
proof fn lemma_no_surrogates_sub(u: Seq<u16>, lo: int, hi: int)
    requires
        no_surrogates(u),
        0 <= lo <= hi <= u.len(),
    ensures
        no_surrogates(u.subrange(lo, hi)),
{
    assert forall|i: int| 0 <= i < hi - lo implies !is_high_surrogate(#[trigger] u.subrange(lo, hi)[i])
        && !is_low_surrogate(u.subrange(lo, hi)[i]) by {
        assert(u.subrange(lo, hi)[i] == u[lo + i]);
    }
}

/// An overlap of `k` units contains the last `len` units of `a` at
/// `k - len` in `b`.
proof fn lemma_overlap_occurs(a: Seq<u16>, b: Seq<u16>, len: int, k: int)
    requires
        a.len() == b.len(),
        0 <= len <= k,
        is_overlap(a, b, k),
    ensures
        b.subrange(k - len, k) == a.subrange(a.len() - len, a.len() as int),
{
    assert forall|i: int| 0 <= i < len implies #[trigger] b.subrange(k - len, k)[i] == a.subrange(a.len() - len, a.len() as int)[i] by {
        assert(b.subrange(k - len, k)[i] == b.take(k)[k - len + i]);
        assert(a.skip(a.len() - k)[k - len + i] == a[a.len() - len + i]);
    }
    assert(b.subrange(k - len, k) =~= a.subrange(a.len() - len, a.len() as int));
}

/// Units without surrogates occur as characters exactly where they occur
/// as units.
proof fn lemma_bmp_occurs(u2: Seq<u16>, pat: Seq<u16>, f: int)
    requires
        no_surrogates(u2),
        no_surrogates(pat),
        0 <= f,
        f + pat.len() <= u2.len(),
    ensures
        occurs_at(bmp_chars(u2), bmp_chars(pat), f) == (u2.subrange(f, f + pat.len()) == pat),
{
    lemma_no_surrogates_sub(u2, f, f + pat.len());
    assert(bmp_chars(u2).subrange(f, f + pat.len()) =~= bmp_chars(u2.subrange(f, f + pat.len())));
    lemma_bmp_chars_eq(u2.subrange(f, f + pat.len()), pat);
}

/// The length, in UTF-16 units, of the longest suffix of the first text
/// that is a prefix of the second, found by looking for ever longer
/// suffixes of the first text in the second (the texts cut to the shorter
/// one's length, a surrogate pair cut in two becoming U+FFFD). For texts
/// without characters beyond U+FFFF it is the longest such overlap.
#[verifier::rlimit(60)]
pub fn overlap(str1: &str, str2: &str) -> (res: usize)
    ensures
        res <= utf16_of(str1@).len(),
        res <= utf16_of(str2@).len(),
        no_surrogates(utf16_of(str1@)) && no_surrogates(utf16_of(str2@)) ==> is_overlap(
            utf16_of(str1@),
            utf16_of(str2@),
            res as int,
        ) && forall|k: int| #[trigger] is_overlap(utf16_of(str1@), utf16_of(str2@), k) ==> k <= res,
{
    let a = utf16_units(str1);
    let b = utf16_units(str2);
    let l1 = a.len();
    let l2 = b.len();
    let ghost bmp = no_surrogates(a@) && no_surrogates(b@);
    if l1 == 0 || l2 == 0 {
        assert(a@.skip(a@.len() - 0) =~= b@.take(0));
        return 0;
    }
    let min_len = if l1 > l2 {
        l2
    } else {
        l1
    };
    let s1: String = if l1 > l2 {
        from_utf16(vstd::slice::slice_subrange(a.as_slice(), l1 - l2, l1))
    } else {
        str1.to_owned()
    };
    let s2: String = if l1 < l2 {
        from_utf16(vstd::slice::slice_subrange(b.as_slice(), 0, l1))
    } else {
        str2.to_owned()
    };
    let ghost ua1 = a@.skip(l1 - min_len);
    let ghost ub2 = b@.take(min_len as int);
    proof {
        if l1 > l2 {
            lemma_decode_units_len(a@.subrange(l1 - l2, l1 as int));
            assert(a@.subrange(l1 - l2, l1 as int) =~= ua1);
        } else {
            assert(ua1 =~= a@);
        }
        if l1 < l2 {
            lemma_decode_units_len(b@.subrange(0, l1 as int));
            assert(b@.subrange(0, l1 as int) =~= ub2);
        } else {
            assert(ub2 =~= b@);
        }
        if bmp {
            lemma_no_surrogates_sub(a@, l1 - min_len, l1 as int);
            lemma_no_surrogates_sub(b@, 0, min_len as int);
            assert(a@.subrange(l1 - min_len, l1 as int) =~= ua1);
            assert(b@.subrange(0, min_len as int) =~= ub2);
            lemma_bmp_decode(ua1);
            lemma_bmp_decode(ub2);
            if l1 <= l2 {
                lemma_utf16_roundtrip(str1@);
            }
            if l1 >= l2 {
                lemma_utf16_roundtrip(str2@);
            }
        }
        lemma_utf16_roundtrip(s1@);
        lemma_utf16_roundtrip(s2@);
        assert forall|k: int| is_overlap(a@, b@, k) implies k <= min_len && is_overlap(ua1, ub2, k) by {
            assert(ua1.skip(ua1.len() - k) =~= a@.skip(a@.len() - k));
            assert(ub2.take(k) =~= b@.take(k));
        }
        assert forall|k: int| 0 <= k <= min_len && is_overlap(ua1, ub2, k) implies is_overlap(a@, b@, k) by {
            assert(ua1.skip(ua1.len() - k) =~= a@.skip(a@.len() - k));
            assert(ub2.take(k) =~= b@.take(k));
        }
    }
    if s1 == s2 {
        proof {
            if bmp {
                assert(utf16_of(s1@) == ua1);
                assert(utf16_of(s2@) == ub2);
                assert(ua1.skip(0) =~= ub2.take(min_len as int));
            }
        }
        return min_len;
    }
    let u1 = utf16_units(s1.as_str());
    let u2 = utf16_units(s2.as_str());
    let c2 = str_chars(s2.as_str());
    let mut best: usize = 0;
    let mut length: usize = 1;
    proof {
        if bmp {
            assert(u1@ == ua1);
            assert(u2@ == ub2);
            assert(u1@.skip(min_len as int) =~= u2@.take(0));
        }
    }
    loop
        invariant
            1 <= length <= min_len,
            best <= min_len,
            min_len <= l1,
            min_len <= l2,
            l1 == utf16_of(str1@).len(),
            l2 == utf16_of(str2@).len(),
            a@ == utf16_of(str1@),
            b@ == utf16_of(str2@),
            u1@ == utf16_of(s1@),
            u2@ == utf16_of(s2@),
            u1@.len() == min_len,
            u2@.len() == min_len,
            utf16_decode(u1@) == s1@,
            utf16_decode(u2@) == s2@,
            s1@ != s2@,
            c2@ == s2@,
            bmp == (no_surrogates(a@) && no_surrogates(b@)),
            bmp ==> u1@ == ua1 && u2@ == ub2 && no_surrogates(u1@) && no_surrogates(u2@) && c2@ == bmp_chars(u2@),
            forall|k: int| is_overlap(a@, b@, k) ==> k <= min_len && is_overlap(ua1, ub2, k),
            forall|k: int| 0 <= k <= min_len && is_overlap(ua1, ub2, k) ==> is_overlap(a@, b@, k),
            bmp ==> is_overlap(u1@, u2@, best as int) && best < length,
            bmp ==> forall|k: int| best < k < length ==> !#[trigger] is_overlap(u1@, u2@, k),
        decreases min_len + 1 - length,
    {
        let pattern = from_utf16(vstd::slice::slice_subrange(u1.as_slice(), min_len - length, min_len));
        let pc = str_chars(pattern.as_str());
        let ghost pat = u1@.subrange(min_len - length, min_len as int);
        proof {
            lemma_decode_units_len(pat);
            if bmp {
                lemma_no_surrogates_sub(u1@, min_len - length, min_len as int);
                lemma_bmp_decode(pat);
                assert(pc@ == bmp_chars(pat));
            }
        }
        match find_chars(&c2, &pc) {
            None => {
                proof {
                    if bmp {
                        assert forall|k: int| is_overlap(u1@, u2@, k) implies k <= best by {
                            if k > best && k >= length {
                                lemma_overlap_occurs(u1@, u2@, length as int, k);
                                lemma_bmp_occurs(u2@, pat, k - length);
                                assert(occurs_at(c2@, pc@, k - length));
                            }
                        }
                        assert(is_overlap(ua1, ub2, best as int));
                        assert(is_overlap(a@, b@, best as int));
                        assert forall|k: int| #[trigger] is_overlap(a@, b@, k) implies k <= best by {
                            assert(is_overlap(ua1, ub2, k));
                            assert(is_overlap(u1@, u2@, k));
                        }
                    }
                }
                return best;
            },
            Some(f) => {
                let before = chars_to_string(vstd::slice::slice_subrange(c2.as_slice(), 0, f));
                let found = utf16_units(before.as_str()).len();
                proof {
                    let rest = c2@.skip(f + pc@.len());
                    assert(c2@ =~= before@ + pc@ + rest);
                    lemma_utf16_of_concat(before@ + pc@, rest);
                    lemma_utf16_of_concat(before@, pc@);
                    if bmp {
                        lemma_no_surrogates_sub(u2@, 0, f as int);
                        assert(before@ =~= bmp_chars(u2@.take(f as int)));
                        assert(u2@.subrange(0, f as int) =~= u2@.take(f as int));
                        lemma_bmp_decode(u2@.take(f as int));
                        assert(found == f);
                        lemma_bmp_occurs(u2@, pat, f as int);
                        assert forall|k: int| length <= k < length + f implies !#[trigger] is_overlap(u1@, u2@, k) by {
                            if is_overlap(u1@, u2@, k) {
                                lemma_overlap_occurs(u1@, u2@, length as int, k);
                                lemma_bmp_occurs(u2@, pat, k - length);
                                assert(occurs_at(c2@, pc@, k - length));
                            }
                        }
                    }
                }
                let old_length = length;
                length = length + found;
                let check = if found == 0 {
                    true
                } else {
                    units_equal_range(&u1, &u2, min_len - length, 0, length)
                };
                proof {
                    if bmp {
                        if found == 0 {
                            assert(u2@.subrange(0, length as int) == pat);
                            assert(u1@.skip(min_len - length) =~= pat);
                            assert(u2@.take(length as int) =~= u2@.subrange(0, length as int));
                        } else {
                            assert(u1@.subrange(min_len - length, min_len - length + length) =~= u1@.skip(min_len - length));
                            assert(u2@.subrange(0, length as int) =~= u2@.take(length as int));
                        }
                        assert(check == is_overlap(u1@, u2@, length as int));
                    }
                }
                if check {
                    proof {
                        if length == min_len {
                            if found == 0 {
                                lemma_units_at_least_chars(before@);
                                assert(f == 0);
                                let rest = c2@.skip(pc@.len() as int);
                                assert(c2@ =~= pc@ + rest);
                                lemma_utf16_of_concat(pc@, rest);
                                lemma_units_at_least_chars(rest);
                                assert(rest.len() == 0);
                                assert(u1@.subrange(0, min_len as int) =~= u1@);
                                assert(c2@ =~= pc@);
                            } else {
                                assert(u1@.subrange(0, min_len as int) =~= u1@);
                                assert(u2@.subrange(0, min_len as int) =~= u2@);
                            }
                        }
                    }
                    best = length;
                    length = length + 1;
                }
                assert(length > old_length);
            },
        }
    }
}


/// Appending a nonempty run of another kind than the last keeps a run list
/// merged.
proof fn lemma_merged_push(p: Seq<(PatchOpType, Seq<char>)>, op: (PatchOpType, Seq<char>))
    requires
        is_merged(p),
        op.1.len() > 0,
        p.len() > 0 ==> p.last().0 != op.0,
    ensures
        is_merged(p.push(op)),
{
    let q = p.push(op);
    assert forall|i: int| 0 <= i < q.len() implies (#[trigger] q[i]).1.len() > 0 by {
        if i < p.len() {
            assert(q[i] == p[i]);
        }
    }
    assert forall|i: int| 0 < i < q.len() implies (#[trigger] q[i]).0 != q[i - 1].0 by {
        if i < p.len() {
            assert(q[i] == p[i] && q[i - 1] == p[i - 1]);
        }
    }
}

/// The run `(kind, t)` alone, or nothing when `t` is empty.
pub open spec fn run_if(kind: PatchOpType, t: Seq<char>) -> Seq<(PatchOpType, Seq<char>)> {
    if t.len() == 0 {
        Seq::empty()
    } else {
        seq![(kind, t)]
    }
}

/// An equal prefix, one edit and an equal suffix, empty runs left out.
pub open spec fn three_view(pre: Seq<char>, kind: PatchOpType, mid: Seq<char>, suf: Seq<char>) -> Seq<(PatchOpType, Seq<char>)> {
    run_if(PatchOpType::Eql, pre) + run_if(kind, mid) + run_if(PatchOpType::Eql, suf)
}

/// The single edit at the caret (a UTF-16 offset into `dst`), where the
/// texts' UTF-16 forms differ in length and the part of `dst` after the
/// caret ends `src` too: for a longer `dst`, the insertion of what stands
/// between the common prefix and the caret, when the prefixes of that length
/// agree; for a shorter one, the deletion of what `src` holds between the
/// prefix and the suffix. `None` where these conditions fail.
pub open spec fn caret_edit(src: Seq<char>, dst: Seq<char>, caret: int) -> Option<Seq<(PatchOpType, Seq<char>)>> {
    let s = utf16_of(src);
    let d = utf16_of(dst);
    if caret < 0 || s.len() == d.len() || caret > d.len() {
        None
    } else {
        let dsfx = utf16_decode(d.subrange(caret, d.len() as int));
        let sfx_len = utf16_of(dsfx).len() as int;
        if sfx_len > s.len() {
            None
        } else if utf16_decode(s.subrange(s.len() - sfx_len, s.len() as int)) != dsfx {
            None
        } else if d.len() > s.len() {
            let pfx = s.len() - sfx_len;
            let spfx = utf16_decode(s.subrange(0, pfx));
            if spfx != utf16_decode(d.subrange(0, pfx)) {
                None
            } else {
                Some(three_view(spfx, PatchOpType::Ins, utf16_decode(d.subrange(pfx, caret)), dsfx))
            }
        } else {
            let pfx = d.len() - sfx_len;
            let spfx = utf16_decode(s.subrange(0, pfx));
            if spfx != utf16_decode(d.subrange(0, pfx)) {
                None
            } else {
                Some(three_view(spfx, PatchOpType::Del, utf16_decode(s.subrange(pfx, s.len() - sfx_len)), dsfx))
            }
        }
    }
}

/// A patch of up to three runs: an equal prefix, an edit and an equal
/// suffix, each left out when empty.
fn three_runs(pre: String, kind: PatchOpType, mid: String, suf: String) -> (res: Patch)
    requires
        kind != PatchOpType::Eql,
    ensures
        patch_view(res@) == three_view(pre@, kind, mid@, suf@),
        patch_src(patch_view(res@)) == pre@ + src_part((kind, mid@)) + suf@,
        patch_dst(patch_view(res@)) == pre@ + dst_part((kind, mid@)) + suf@,
        mid@.len() > 0 ==> is_merged(patch_view(res@)),
{
    let ghost pv = pre@;
    let ghost mv = mid@;
    let ghost sv = suf@;
    let mut out: Patch = Vec::new();
    assert(patch_view(out@) =~= Seq::<(PatchOpType, Seq<char>)>::empty());
    if pre.as_str().unicode_len() != 0 {
        let ghost before = out@;
        out.push((PatchOpType::Eql, pre));
        proof {
            lemma_view_push(before, (PatchOpType::Eql, pre));
            lemma_texts_push(patch_view(before), (PatchOpType::Eql, pv));
            lemma_merged_push(patch_view(before), (PatchOpType::Eql, pv));
        }
    } else {
        assert(pv =~= Seq::<char>::empty());
    }
    let ghost o1 = patch_view(out@);
    assert(patch_src(o1) == pv && patch_dst(o1) == pv);
    assert(is_merged(o1) && (o1.len() > 0 ==> o1.last().0 == PatchOpType::Eql));
    if mid.as_str().unicode_len() != 0 {
        let ghost before = out@;
        out.push((kind, mid));
        proof {
            lemma_view_push(before, (kind, mid));
            lemma_texts_push(o1, (kind, mv));
            lemma_merged_push(o1, (kind, mv));
        }
    } else {
        assert(mv =~= Seq::<char>::empty());
        assert(src_part((kind, mv)) =~= Seq::<char>::empty());
        assert(dst_part((kind, mv)) =~= Seq::<char>::empty());
    }
    let ghost o2 = patch_view(out@);
    assert(mv.len() > 0 ==> is_merged(o2) && o2.last().0 == kind);
    assert(patch_src(o2) =~= pv + src_part((kind, mv)));
    assert(patch_dst(o2) =~= pv + dst_part((kind, mv)));
    if suf.as_str().unicode_len() != 0 {
        let ghost before = out@;
        out.push((PatchOpType::Eql, suf));
        proof {
            lemma_view_push(before, (PatchOpType::Eql, suf));
            lemma_texts_push(o2, (PatchOpType::Eql, sv));
            if mv.len() > 0 {
                lemma_merged_push(o2, (PatchOpType::Eql, sv));
            }
        }
    } else {
        assert(sv =~= Seq::<char>::empty());
    }
    proof {
        let v = patch_view(out@);
        assert(patch_src(v) =~= pv + src_part((kind, mv)) + sv);
        assert(patch_dst(v) =~= pv + dst_part((kind, mv)) + sv);
    }
    out
}

/// The text of the UTF-16 units `u[lo..hi]`.
fn units_text(u: &Vec<u16>, lo: usize, hi: usize) -> (res: String)
    requires
        lo <= hi <= u@.len(),
    ensures
        res@ == utf16_decode(u@.subrange(lo as int, hi as int)),
{
    from_utf16(vstd::slice::slice_subrange(u.as_slice(), lo, hi))
}

/// A diff of a text edited at the caret `caret` (a UTF-16 offset into
/// `dst`): when the texts differ in length only by an insertion just before
/// the caret or a deletion at it, that one edit between the equal prefix and
/// suffix; otherwise `diff`. For texts without characters beyond U+FFFF, its
/// source and destination texts are `src` and `dst`.
#[verifier::rlimit(40)]
pub fn diff_edit(src: &str, dst: &str, caret: isize) -> (res: Patch)
    requires
        src@.len() + dst@.len() <= usize::MAX / 4,
    ensures
        no_surrogates(utf16_of(src@)) && no_surrogates(utf16_of(dst@)) ==> patch_src(patch_view(res@)) == src@
            && patch_dst(patch_view(res@)) == dst@,
        is_merged(patch_view(res@)),
        caret_edit(src@, dst@, caret as int) matches Some(p) ==> patch_view(res@) == p,
        caret_edit(src@, dst@, caret as int) is None ==> (src@ == dst@ ==> patch_view(res@) == run_if(PatchOpType::Eql, src@)),
{
    if caret >= 0 {
        let src_u = utf16_units(src);
        let dst_u = utf16_units(dst);
        let src_len = src_u.len();
        let dst_len = dst_u.len();
        let ghost bmp = no_surrogates(src_u@) && no_surrogates(dst_u@);
        proof {
            lemma_utf16_roundtrip(src@);
            lemma_utf16_roundtrip(dst@);
        }
        if src_len != dst_len {
            let caret_u = caret as usize;
            if caret_u <= dst_u.len() {
                let dst_sfx = units_text(&dst_u, caret_u, dst_len);
                let sfx_len = utf16_units(dst_sfx.as_str()).len();
                proof {
                    lemma_decode_units_len(dst_u@.subrange(caret_u as int, dst_len as int));
                }
                if sfx_len <= src_len {
                    let src_sfx = units_text(&src_u, src_len - sfx_len, src_len);
                    if src_sfx == dst_sfx {
                        proof {
                            if bmp {
                                lemma_no_surrogates_sub(src_u@, src_len - sfx_len, src_len as int);
                                lemma_no_surrogates_sub(dst_u@, caret_u as int, dst_len as int);
                                lemma_bmp_decode(src_u@.subrange(src_len - sfx_len, src_len as int));
                                lemma_bmp_decode(dst_u@.subrange(caret_u as int, dst_len as int));
                                lemma_bmp_chars_eq(
                                    src_u@.subrange(src_len - sfx_len, src_len as int),
                                    dst_u@.subrange(caret_u as int, dst_len as int),
                                );
                            }
                        }
                        if dst_len > src_len {
                            let pfx_len = src_len - sfx_len;
                            let src_pfx = units_text(&src_u, 0, pfx_len);
                            let dst_pfx = units_text(&dst_u, 0, pfx_len);
                            if src_pfx == dst_pfx {
                                let insert = units_text(&dst_u, pfx_len, caret_u);
                                proof {
                                    lemma_decode_units_len(dst_u@.subrange(pfx_len as int, caret_u as int));
                                    if insert@.len() == 0 {
                                        assert(insert@ =~= Seq::<char>::empty());
                                        assert(utf16_of(insert@).len() == 0);
                                    }
                                    if bmp {
                                        lemma_no_surrogates_sub(src_u@, 0, pfx_len as int);
                                        lemma_no_surrogates_sub(dst_u@, 0, pfx_len as int);
                                        lemma_no_surrogates_sub(dst_u@, pfx_len as int, caret_u as int);
                                        lemma_bmp_decode(src_u@.subrange(0, pfx_len as int));
                                        lemma_bmp_decode(dst_u@.subrange(0, pfx_len as int));
                                        lemma_bmp_decode(dst_u@.subrange(pfx_len as int, caret_u as int));
                                        lemma_bmp_decode(src_u@);
                                        lemma_bmp_decode(dst_u@);
                                        assert(src_u@ =~= src_u@.subrange(0, pfx_len as int) + src_u@.subrange(
                                            pfx_len as int,
                                            src_len as int,
                                        ));
                                        assert(bmp_chars(src_u@) =~= bmp_chars(src_u@.subrange(0, pfx_len as int))
                                            + bmp_chars(src_u@.subrange(pfx_len as int, src_len as int)));
                                        assert(bmp_chars(dst_u@) =~= bmp_chars(dst_u@.subrange(0, pfx_len as int))
                                            + bmp_chars(dst_u@.subrange(pfx_len as int, caret_u as int)) + bmp_chars(
                                            dst_u@.subrange(caret_u as int, dst_len as int),
                                        ));
                                        assert(src@ =~= src_pfx@ + dst_sfx@);
                                        assert(dst@ =~= src_pfx@ + insert@ + dst_sfx@);
                                    }
                                }
                                return three_runs(src_pfx, PatchOpType::Ins, insert, dst_sfx);
                            }
                        } else {
                            let pfx_len = dst_len - sfx_len;
                            let dst_pfx = units_text(&dst_u, 0, pfx_len);
                            let src_pfx = units_text(&src_u, 0, pfx_len);
                            if src_pfx == dst_pfx {
                                let del = units_text(&src_u, pfx_len, src_len - sfx_len);
                                proof {
                                    lemma_decode_units_len(src_u@.subrange(pfx_len as int, src_len - sfx_len));
                                    if del@.len() == 0 {
                                        assert(del@ =~= Seq::<char>::empty());
                                        assert(utf16_of(del@).len() == 0);
                                    }
                                    if bmp {
                                        lemma_no_surrogates_sub(src_u@, 0, pfx_len as int);
                                        lemma_no_surrogates_sub(dst_u@, 0, pfx_len as int);
                                        lemma_no_surrogates_sub(src_u@, pfx_len as int, src_len - sfx_len);
                                        lemma_bmp_decode(src_u@.subrange(0, pfx_len as int));
                                        lemma_bmp_decode(dst_u@.subrange(0, pfx_len as int));
                                        lemma_bmp_decode(src_u@.subrange(pfx_len as int, src_len - sfx_len));
                                        lemma_bmp_decode(src_u@);
                                        lemma_bmp_decode(dst_u@);
                                        assert(bmp_chars(src_u@) =~= bmp_chars(src_u@.subrange(0, pfx_len as int))
                                            + bmp_chars(src_u@.subrange(pfx_len as int, src_len - sfx_len)) + bmp_chars(
                                            src_u@.subrange(src_len - sfx_len, src_len as int),
                                        ));
                                        assert(bmp_chars(dst_u@) =~= bmp_chars(dst_u@.subrange(0, pfx_len as int))
                                            + bmp_chars(dst_u@.subrange(pfx_len as int, dst_len as int)));
                                        assert(src@ =~= src_pfx@ + del@ + dst_sfx@);
                                        assert(dst@ =~= src_pfx@ + dst_sfx@);
                                    }
                                }
                                return three_runs(src_pfx, PatchOpType::Del, del, dst_sfx);
                            }
                        }
                    }
                }
            }
        }
    }
    diff(src, dst)
}

} // verus!
