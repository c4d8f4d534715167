//! Line diffs: which source lines are deleted, which destination lines are
//! inserted, and which pairs of lines are changed in place.

use vstd::prelude::*;
use crate::text::{chars_to_string, str_chars};
use crate::util_diff::str_diff::{
    self, lemma_texts_concat, patch_dst, patch_src, patch_view, Patch, PatchOpType, PatchOperation,
    src_part, dst_part, joined, lemma_normalize_keeps_texts, spec_normalize, lemma_texts_push,
};

verus! {

/// The kind of a line in a line patch.
#[derive(Debug, Clone, Copy, PartialEq, Eq, Structural)]
pub enum LinePatchOpType {
    Del,
    Eql,
    Ins,
    Mix,
}

/// A line patch entry: kind, source line index and destination line index
/// (-1 where there is none).
pub type LinePatchOp = (LinePatchOpType, isize, isize);

/// A line patch.
pub type LinePatch = Vec<LinePatchOp>;

/// One step of applying a line patch.
#[derive(Debug, Clone, Copy, PartialEq, Eq, Structural)]
pub enum LineEdit {
    /// Delete the source line at the index.
    Delete(usize),
    /// Insert the destination line (second index) after the source line
    /// (first index).
    Insert(isize, usize),
    /// Replace the source line (first index) by the destination line.
    Mix(usize, usize),
}

/// The steps of applying a line patch, entry by entry from the last one back;
/// equal lines give none.
pub open spec fn spec_line_apply(p: Seq<LinePatchOp>) -> Seq<LineEdit>
    decreases p.len(),
{
    if p.len() == 0 {
        Seq::empty()
    } else {
        let (ty, s, d) = p.last();
        let rest = spec_line_apply(p.drop_last());
        match ty {
            LinePatchOpType::Eql => rest,
            LinePatchOpType::Del => seq![LineEdit::Delete(s as usize)] + rest,
            LinePatchOpType::Ins => seq![LineEdit::Insert(s, d as usize)] + rest,
            LinePatchOpType::Mix => seq![LineEdit::Mix(s as usize, d as usize)] + rest,
        }
    }
}

/// The steps of applying a line patch, from its last entry back.
pub fn apply(patch: &LinePatch) -> (res: Vec<LineEdit>)
    ensures
        res@ == spec_line_apply(patch@),
{
    let mut out: Vec<LineEdit> = Vec::new();
    let mut i = patch.len();
    assert(patch@.take(i as int) =~= patch@);
    assert(out@ + spec_line_apply(patch@) =~= spec_line_apply(patch@));
    while i > 0
        invariant
            i <= patch.len(),
            spec_line_apply(patch@) == out@ + spec_line_apply(patch@.take(i as int)),
        decreases i,
    {
        let (ty, s, d) = patch[i - 1];
        proof {
            assert(patch@.take(i as int).drop_last() =~= patch@.take(i - 1));
            assert(patch@.take(i as int).last() == patch@[i - 1]);
        }
        let ghost o0 = out@;
        match ty {
            LinePatchOpType::Eql => {},
            LinePatchOpType::Del => {
                out.push(LineEdit::Delete(s as usize));
            },
            LinePatchOpType::Ins => {
                out.push(LineEdit::Insert(s, d as usize));
            },
            LinePatchOpType::Mix => {
                out.push(LineEdit::Mix(s as usize, d as usize));
            },
        }
        proof {
            let r = spec_line_apply(patch@.take(i - 1));
            match ty {
                LinePatchOpType::Eql => {},
                _ => {
                    assert(o0 + (seq![out@.last()] + r) =~= out@ + r);
                },
            }
        }
        i = i - 1;
    }
    assert(patch@.take(0) =~= Seq::<LinePatchOp>::empty());
    assert(out@ + Seq::<LineEdit>::empty() =~= out@);
    out
}


// ---------------------------------------------------------------------------
// Text patches grouped by line
// ---------------------------------------------------------------------------

/// The runs of the lines.
pub open spec fn lines_view(ls: Seq<Patch>) -> Seq<Seq<(PatchOpType, Seq<char>)>> {
    ls.map_values(|l: Patch| patch_view(l@))
}

/// The lines' runs, one line after the other.
pub open spec fn flat(ls: Seq<Seq<(PatchOpType, Seq<char>)>>) -> Seq<(PatchOpType, Seq<char>)>
    decreases ls.len(),
{
    if ls.len() == 0 {
        Seq::empty()
    } else {
        flat(ls.drop_last()) + ls.last()
    }
}

/// Flattening adds up over concatenation.
pub proof fn lemma_flat_concat(a: Seq<Seq<(PatchOpType, Seq<char>)>>, b: Seq<Seq<(PatchOpType, Seq<char>)>>)
    ensures
        flat(a + b) == flat(a) + flat(b),
    decreases b.len(),
{
    if b.len() == 0 {
        assert(a + b =~= a);
        assert(flat(a) + flat(b) =~= flat(a));
    } else {
        lemma_flat_concat(a, b.drop_last());
        assert((a + b).drop_last() =~= a + b.drop_last());
        assert((a + b).last() == b.last());
        assert(flat(a + b) =~= flat(a) + flat(b));
    }
}

/// The texts of the flattened lines, around line `i`.
proof fn lemma_flat_around(ls: Seq<Seq<(PatchOpType, Seq<char>)>>, i: int)
    requires
        0 <= i < ls.len(),
    ensures
        patch_src(flat(ls)) == patch_src(flat(ls.take(i))) + patch_src(ls[i]) + patch_src(flat(ls.skip(i + 1))),
        patch_dst(flat(ls)) == patch_dst(flat(ls.take(i))) + patch_dst(ls[i]) + patch_dst(flat(ls.skip(i + 1))),
{
    assert(ls =~= ls.take(i) + seq![ls[i]] + ls.skip(i + 1));
    lemma_flat_concat(ls.take(i) + seq![ls[i]], ls.skip(i + 1));
    lemma_flat_concat(ls.take(i), seq![ls[i]]);
    reveal_with_fuel(flat, 2);
    assert(seq![ls[i]].drop_last() =~= Seq::<Seq<(PatchOpType, Seq<char>)>>::empty());
    assert(seq![ls[i]].last() == ls[i]);
    assert(flat(seq![ls[i]]) =~= ls[i]);
    lemma_texts_concat(flat(ls.take(i)) + ls[i], flat(ls.skip(i + 1)));
    lemma_texts_concat(flat(ls.take(i)), ls[i]);
}

/// Replacing one line by one with the same texts keeps the flattened texts.
proof fn lemma_flat_replace(ls: Seq<Seq<(PatchOpType, Seq<char>)>>, i: int, l: Seq<(PatchOpType, Seq<char>)>)
    requires
        0 <= i < ls.len(),
        patch_src(l) == patch_src(ls[i]),
        patch_dst(l) == patch_dst(ls[i]),
    ensures
        patch_src(flat(ls.update(i, l))) == patch_src(flat(ls)),
        patch_dst(flat(ls.update(i, l))) == patch_dst(flat(ls)),
{
    let u = ls.update(i, l);
    lemma_flat_around(ls, i);
    lemma_flat_around(u, i);
    assert(u.take(i) =~= ls.take(i));
    assert(u.skip(i + 1) =~= ls.skip(i + 1));
}

/// Adds a run to a line: nothing for empty text, joined to a last run of
/// the same kind, else a run of its own.
fn push_run(line: &mut Patch, ty: PatchOpType, text: String)
    ensures
        patch_src(patch_view(final(line)@)) == patch_src(patch_view(old(line)@)) + src_part((ty, text@)),
        patch_dst(patch_view(final(line)@)) == patch_dst(patch_view(old(line)@)) + dst_part((ty, text@)),
{
    let ghost v0 = patch_view(line@);
    if text.as_str().unicode_len() == 0 {
        assert(src_part((ty, text@)) =~= Seq::<char>::empty());
        assert(dst_part((ty, text@)) =~= Seq::<char>::empty());
        assert(patch_src(v0) + Seq::<char>::empty() =~= patch_src(v0));
        assert(patch_dst(v0) + Seq::<char>::empty() =~= patch_dst(v0));
        return;
    }
    let n = line.len();
    if n > 0 && line[n - 1].0 == ty {
        let mut t = line[n - 1].1.clone();
        t.append(text.as_str());
        let ghost before = line@;
        line.set(n - 1, (ty, t));
        proof {
            let v1 = patch_view(line@);
            assert(v1.drop_last() =~= v0.drop_last());
            assert(v1.last() == (ty, v0.last().1 + text@));
            assert(patch_src(v1) =~= patch_src(v0) + src_part((ty, text@)));
            assert(patch_dst(v1) =~= patch_dst(v0) + dst_part((ty, text@)));
        }
    } else {
        line.push((ty, text));
        proof {
            let v1 = patch_view(line@);
            assert(v1.drop_last() =~= v0);
            assert(v1.last() == (ty, text@));
        }
    }
}

/// The first newline at or after `from`.
fn newline_from(chars: &Vec<char>, from: usize) -> (res: Option<usize>)
    ensures
        match res {
            Some(k) => from <= k < chars.len() && k < chars@.len() && chars@[k as int] == '\n' && forall|q: int|
                from <= q < k ==> chars@[q] != '\n',
            None => forall|q: int| from <= q < chars@.len() ==> chars@[q] != '\n',
        },
{
    let mut k = from;
    while k < chars.len()
        invariant
            from <= k || k >= chars@.len(),
            forall|q: int| from <= q < k ==> chars@[q] != '\n',
        decreases chars.len() - k,
    {
        if chars[k] == '\n' {
            return Some(k);
        }
        k = k + 1;
    }
    None
}

/// The text of the characters `chars[lo..hi]`.
fn chars_text(chars: &Vec<char>, lo: usize, hi: usize) -> (res: String)
    requires
        lo <= hi <= chars@.len(),
    ensures
        res@ == chars@.subrange(lo as int, hi as int),
{
    chars_to_string(vstd::slice::slice_subrange(chars.as_slice(), lo, hi))
}

/// The texts of a one-run line.
proof fn lemma_one_run_texts(op: (PatchOpType, Seq<char>))
    ensures
        patch_src(seq![op]) == src_part(op),
        patch_dst(seq![op]) == dst_part(op),
{
    reveal_with_fuel(patch_src, 2);
    reveal_with_fuel(patch_dst, 2);
    assert(seq![op].drop_last() =~= Seq::<(PatchOpType, Seq<char>)>::empty());
    assert(seq![op].last() == op);
    assert(patch_src(seq![op]) =~= src_part(op));
    assert(patch_dst(seq![op]) =~= dst_part(op));
}

/// A run's text split in pieces gives the pieces' texts.
proof fn lemma_parts_split(ty: PatchOpType, a: Seq<char>, b: Seq<char>)
    ensures
        src_part((ty, a + b)) == src_part((ty, a)) + src_part((ty, b)),
        dst_part((ty, a + b)) == dst_part((ty, a)) + dst_part((ty, b)),
{
    assert(Seq::<char>::empty() + Seq::<char>::empty() =~= Seq::<char>::empty());
}


/// The texts of lines and a line being filled.
pub open spec fn open_src(ls: Seq<Patch>, line: Seq<PatchOperation>) -> Seq<char> {
    patch_src(flat(lines_view(ls))) + patch_src(patch_view(line))
}

/// The texts of lines and a line being filled.
pub open spec fn open_dst(ls: Seq<Patch>, line: Seq<PatchOperation>) -> Seq<char> {
    patch_dst(flat(lines_view(ls))) + patch_dst(patch_view(line))
}

/// The texts of the lines after one more.
proof fn lemma_lines_push(ls: Seq<Patch>, l: Patch)
    ensures
        patch_src(flat(lines_view(ls.push(l)))) == patch_src(flat(lines_view(ls))) + patch_src(patch_view(l@)),
        patch_dst(flat(lines_view(ls.push(l)))) == patch_dst(flat(lines_view(ls))) + patch_dst(patch_view(l@)),
{
    assert(lines_view(ls.push(l)) =~= lines_view(ls).push(patch_view(l@)));
    assert(lines_view(ls.push(l)).drop_last() =~= lines_view(ls));
    lemma_texts_concat(flat(lines_view(ls)), patch_view(l@));
}

/// Moves a nonempty line being filled to the lines.
fn flush_line(lines: &mut Vec<Patch>, line: &mut Patch)
    ensures
        final(line)@.len() == 0,
        open_src(final(lines)@, final(line)@) == open_src(old(lines)@, old(line)@),
        open_dst(final(lines)@, final(line)@) == open_dst(old(lines)@, old(line)@),
{
    let ghost ls0 = lines@;
    let ghost l0 = line@;
    if line.len() > 0 {
        let mut l: Patch = Vec::new();
        std::mem::swap(&mut l, line);
        lines.push(l);
        proof {
            lemma_lines_push(ls0, l);
        }
    }
    proof {
        let e = patch_view(line@);
        assert(e =~= Seq::<(PatchOpType, Seq<char>)>::empty());
        assert(patch_src(e) =~= Seq::<char>::empty());
        assert(patch_dst(e) =~= Seq::<char>::empty());
        if l0.len() == 0 {
            assert(patch_view(l0) =~= Seq::<(PatchOpType, Seq<char>)>::empty());
        }
        assert(open_src(lines@, line@) =~= open_src(ls0, l0));
        assert(open_dst(lines@, line@) =~= open_dst(ls0, l0));
    }
}

/// Adds the text of one run: up to its first newline it joins the line
/// being filled, which then ends; each further newline ends a line of its
/// own; what follows the last newline starts the next line.
fn split_run(lines: &mut Vec<Patch>, line: &mut Patch, ty: PatchOpType, s: &String)
    ensures
        open_src(final(lines)@, final(line)@) == open_src(old(lines)@, old(line)@) + src_part((ty, s@)),
        open_dst(final(lines)@, final(line)@) == open_dst(old(lines)@, old(line)@) + dst_part((ty, s@)),
{
    let chars = str_chars(s.as_str());
    let ghost src0 = open_src(lines@, line@);
    let ghost dst0 = open_dst(lines@, line@);
    match newline_from(&chars, 0) {
        None => {
            push_run(line, ty, s.clone());
        },
        Some(index) => {
            let head = chars_text(&chars, 0, index + 1);
            push_run(line, ty, head);
            flush_line(lines, line);
            let mut prev = index;
            loop
                invariant_except_break
                    prev < chars@.len(),
                    prev < chars.len(),
                    chars@ == s@,
                    line@.len() == 0,
                    open_src(lines@, line@) == src0 + src_part((ty, chars@.take(prev + 1))),
                    open_dst(lines@, line@) == dst0 + dst_part((ty, chars@.take(prev + 1))),
                ensures
                    open_src(lines@, line@) == src0 + src_part((ty, s@)),
                    open_dst(lines@, line@) == dst0 + dst_part((ty, s@)),
                decreases chars@.len() - prev,
            {
                proof {
                    assert(patch_view(line@) =~= Seq::<(PatchOpType, Seq<char>)>::empty());
                }
                match newline_from(&chars, prev + 1) {
                    Some(next) => {
                        let seg = chars_text(&chars, prev + 1, next + 1);
                        let ghost sv = seg@;
                        let ghost ls0 = lines@;
                        let mut one: Patch = Vec::new();
                        one.push((ty, seg));
                        let ghost ov = one;
                        lines.push(one);
                        proof {
                            lemma_lines_push(ls0, ov);
                            assert(patch_view(ov@) =~= seq![(ty, sv)]);
                            lemma_one_run_texts((ty, sv));
                            assert(chars@.take(next + 1) =~= chars@.take(prev + 1) + sv);
                            lemma_parts_split(ty, chars@.take(prev + 1), sv);
                        }
                        prev = next;
                    },
                    None => {
                        let tail = chars_text(&chars, prev + 1, chars.len());
                        let ghost tv = tail@;
                        push_run(line, ty, tail);
                        proof {
                            assert(chars@ =~= chars@.take(prev + 1) + tv);
                            lemma_parts_split(ty, chars@.take(prev + 1), tv);
                        }
                        break;
                    },
                }
            }
        },
    }
}

/// The runs of a text patch split into lines: each line ends with a
/// newline, except perhaps the last.
fn split_lines(patch: &Patch) -> (res: Vec<Patch>)
    ensures
        patch_src(flat(lines_view(res@))) == patch_src(patch_view(patch@)),
        patch_dst(flat(lines_view(res@))) == patch_dst(patch_view(patch@)),
{
    let ghost pv = patch_view(patch@);
    let mut lines: Vec<Patch> = Vec::new();
    let mut line: Patch = Vec::new();
    let mut i: usize = 0;
    proof {
        assert(pv.take(0) =~= Seq::<(PatchOpType, Seq<char>)>::empty());
        assert(lines_view(lines@) =~= Seq::<Seq<(PatchOpType, Seq<char>)>>::empty());
        assert(patch_view(line@) =~= Seq::<(PatchOpType, Seq<char>)>::empty());
        assert(open_src(lines@, line@) =~= Seq::<char>::empty());
        assert(open_dst(lines@, line@) =~= Seq::<char>::empty());
    }
    while i < patch.len()
        invariant
            i <= patch@.len(),
            pv == patch_view(patch@),
            open_src(lines@, line@) == patch_src(pv.take(i as int)),
            open_dst(lines@, line@) == patch_dst(pv.take(i as int)),
        decreases patch.len() - i,
    {
        proof {
            assert(pv.take(i + 1).drop_last() =~= pv.take(i as int));
            assert(pv.take(i + 1).last() == (patch@[i as int].0, patch@[i as int].1@));
        }
        split_run(&mut lines, &mut line, patch[i].0, &patch[i].1);
        i = i + 1;
    }
    flush_line(&mut lines, &mut line);
    proof {
        assert(pv.take(patch@.len() as int) =~= pv);
        assert(patch_view(line@) =~= Seq::<(PatchOpType, Seq<char>)>::empty());
        assert(patch_src(flat(lines_view(lines@))) =~= open_src(lines@, line@));
        assert(patch_dst(flat(lines_view(lines@))) =~= open_dst(lines@, line@));
    }
    lines
}


/// Every run of the line is of kind `k`.
pub open spec fn all_kind(l: Seq<(PatchOpType, Seq<char>)>, k: PatchOpType) -> bool {
    forall|q: int| 0 <= q < l.len() ==> (#[trigger] l[q]).0 == k
}

/// A line of deletions adds nothing to the destination, one of insertions
/// nothing to the source.
proof fn lemma_all_kind_texts(l: Seq<(PatchOpType, Seq<char>)>, k: PatchOpType)
    requires
        all_kind(l, k),
    ensures
        k == PatchOpType::Del ==> patch_dst(l) == Seq::<char>::empty(),
        k == PatchOpType::Ins ==> patch_src(l) == Seq::<char>::empty(),
    decreases l.len(),
{
    if l.len() > 0 {
        assert(all_kind(l.drop_last(), k)) by {
            assert forall|q: int| 0 <= q < l.drop_last().len() implies (#[trigger] l.drop_last()[q]).0 == k by {
                assert(l.drop_last()[q] == l[q]);
            }
        }
        lemma_all_kind_texts(l.drop_last(), k);
        assert(l.last() == l[l.len() - 1]);
        assert(patch_dst(l) =~= patch_dst(l.drop_last()) + dst_part(l.last()));
        assert(patch_src(l) =~= patch_src(l.drop_last()) + src_part(l.last()));
    }
}

/// Lines all of whose runs are of kind `k` flatten to runs of kind `k`.
proof fn lemma_flat_all_kind(ls: Seq<Seq<(PatchOpType, Seq<char>)>>, k: PatchOpType)
    requires
        forall|q: int| 0 <= q < ls.len() ==> all_kind(#[trigger] ls[q], k),
    ensures
        all_kind(flat(ls), k),
    decreases ls.len(),
{
    if ls.len() > 0 {
        lemma_flat_all_kind(ls.drop_last(), k);
        let f = flat(ls);
        let a = flat(ls.drop_last());
        assert(all_kind(ls[ls.len() - 1], k));
        assert forall|q: int| 0 <= q < f.len() implies (#[trigger] f[q]).0 == k by {
            if q < a.len() {
                assert(f[q] == a[q]);
            } else {
                assert(f[q] == ls.last()[q - a.len()]);
            }
        }
    }
}

/// The texts of the flattened lines around lines `i` and `j`.
#[verifier::spinoff_prover]
proof fn lemma_flat_two(ls: Seq<Seq<(PatchOpType, Seq<char>)>>, i: int, j: int)
    requires
        0 <= i < j < ls.len(),
    ensures
        patch_src(flat(ls)) == patch_src(flat(ls.take(i))) + patch_src(ls[i]) + patch_src(flat(ls.subrange(i + 1, j)))
            + patch_src(ls[j]) + patch_src(flat(ls.skip(j + 1))),
        patch_dst(flat(ls)) == patch_dst(flat(ls.take(i))) + patch_dst(ls[i]) + patch_dst(flat(ls.subrange(i + 1, j)))
            + patch_dst(ls[j]) + patch_dst(flat(ls.skip(j + 1))),
{
    lemma_flat_around(ls, i);
    let r = ls.skip(i + 1);
    lemma_flat_around(r, j - i - 1);
    assert(r.take(j - i - 1) =~= ls.subrange(i + 1, j));
    assert(r.skip(j - i) =~= ls.skip(j + 1));
    assert(r[j - i - 1] == ls[j]);
}

/// The texts of a line with a first run set apart.
proof fn lemma_texts_cons(x: (PatchOpType, Seq<char>), rest: Seq<(PatchOpType, Seq<char>)>)
    ensures
        patch_src(seq![x] + rest) == src_part(x) + patch_src(rest),
        patch_dst(seq![x] + rest) == dst_part(x) + patch_dst(rest),
{
    lemma_texts_concat(seq![x], rest);
    lemma_one_run_texts(x);
}

/// A copy of a line.
fn copy_line(l: &Patch, from: usize) -> (res: Patch)
    requires
        from <= l@.len(),
    ensures
        res@ == l@.skip(from as int),
{
    let mut out: Patch = Vec::new();
    let mut k = from;
    while k < l.len()
        invariant
            from <= k <= l@.len(),
            out@ == l@.subrange(from as int, k as int),
        decreases l.len() - k,
    {
        out.push((l[k].0, l[k].1.clone()));
        assert(out@ =~= l@.subrange(from as int, k + 1));
        k = k + 1;
    }
    assert(l@.subrange(from as int, l@.len() as int) =~= l@.skip(from as int));
    out
}

/// Whether every run of the line is of kind `k`.
fn line_all_kind(l: &Patch, from: usize, k: PatchOpType) -> (res: bool)
    ensures
        res == forall|q: int| from <= q < l@.len() ==> (#[trigger] l@[q]).0 == k,
{
    let mut q = from;
    while q < l.len()
        invariant
            from <= q,
            forall|p: int| from <= p < q ==> (#[trigger] l@[p]).0 == k,
        decreases l.len() - q,
    {
        if l[q].0 != k {
            assert(l@[q as int].0 != k);
            return false;
        }
        q = q + 1;
    }
    true
}

/// Normalizes line `j` in place.
fn normalize_at(lines: &mut Vec<Patch>, j: usize)
    requires
        j < old(lines)@.len(),
    ensures
        final(lines)@.len() == old(lines)@.len(),
        forall|q: int| 0 <= q < old(lines)@.len() && q != j ==> final(lines)@[q] == old(lines)@[q],
        patch_view(final(lines)@[j as int]@) == spec_normalize(patch_view(old(lines)@[j as int]@)),
        lines_view(final(lines)@) == lines_view(old(lines)@).update(j as int, spec_normalize(patch_view(old(lines)@[j as int]@))),
        patch_src(flat(lines_view(final(lines)@))) == patch_src(flat(lines_view(old(lines)@))),
        patch_dst(flat(lines_view(final(lines)@))) == patch_dst(flat(lines_view(old(lines)@))),
{
    let l = copy_line(&lines[j], 0);
    assert(l@ =~= lines@[j as int]@);
    let n = str_diff::normalize(l);
    let ghost before = lines@;
    let ghost nv = patch_view(n@);
    lines.set(j, n);
    proof {
        lemma_normalize_keeps_texts(patch_view(before[j as int]@));
        assert(lines_view(lines@) =~= lines_view(before).update(j as int, nv));
        lemma_flat_replace(lines_view(before), j as int, nv);
    }
}


/// Line `i` starting with the equal text `p` and line `j` starting with a
/// run of kind `x` of text `p`: line `i` starts instead with a run of kind
/// `x` of `p` and the text of its second run, and line `j` with an equal
/// run of `p` and the text of its second run (see `move_start`).
pub open spec fn move_start_spec(
    lv: Seq<Seq<(PatchOpType, Seq<char>)>>,
    i: int,
    j: int,
    x: PatchOpType,
) -> Seq<Seq<(PatchOpType, Seq<char>)>> {
    let li = lv[i];
    let lj = lv[j];
    lv.update(i, seq![(x, li[0].1 + li[1].1)] + li.skip(2)).update(
        j,
        seq![(PatchOpType::Eql, li[0].1 + lj[1].1)] + lj.skip(2),
    )
}

/// The text `m` ending the last run of line `i` becomes an equal run of its
/// own after that run, and the equal run `m` ending line `j` a deletion; both
/// lines normalized (see `move_end`).
pub open spec fn move_end_spec(
    lv: Seq<Seq<(PatchOpType, Seq<char>)>>,
    i: int,
    j: int,
    m: Seq<char>,
) -> Seq<Seq<(PatchOpType, Seq<char>)>> {
    let li = lv[i];
    let lj = lv[j];
    let w = li.last().1;
    let k = w.take(w.len() - m.len());
    lv.update(i, spec_normalize(li.drop_last().push((PatchOpType::Del, k)).push((PatchOpType::Eql, m)))).update(
        j,
        spec_normalize(lj.drop_last().push((PatchOpType::Del, m))),
    )
}

/// The scan of `normalize_line_start` from line `j` on: each line looked at
/// is normalized; the scan moves the text at the first line that starts
/// with a run of kind `x` of the text starting line `i` followed by an equal
/// run, and stops at the first line not all of kind `x`.
pub open spec fn start_scan(
    lv: Seq<Seq<(PatchOpType, Seq<char>)>>,
    i: int,
    j: int,
    x: PatchOpType,
) -> Seq<Seq<(PatchOpType, Seq<char>)>>
    decreases lv.len() - j,
{
    if j < 0 || j >= lv.len() {
        lv
    } else {
        let lv1 = lv.update(j, spec_normalize(lv[j]));
        let t = lv1[j];
        if t.len() > 1 && t[0].0 == x && t[1].0 == PatchOpType::Eql && t[0].1 == lv1[i][0].1 {
            move_start_spec(lv1, i, j, x)
        } else if !all_kind(t, x) {
            lv1
        } else {
            start_scan(lv1, i, j + 1, x)
        }
    }
}

/// What `normalize_line_start` makes of the lines.
pub open spec fn line_start_spec(lv: Seq<Seq<(PatchOpType, Seq<char>)>>, i: int) -> Seq<Seq<(PatchOpType, Seq<char>)>> {
    let l = lv[i];
    if l.len() < 2 || l[0].0 != PatchOpType::Eql {
        lv
    } else {
        let x = l[1].0;
        if x != PatchOpType::Del && x != PatchOpType::Ins {
            lv
        } else if !(forall|q: int| 2 <= q < l.len() ==> (#[trigger] l[q]).0 == x) {
            lv
        } else {
            start_scan(lv, i, i + 1, x)
        }
    }
}

/// Moving the equal text `m` that ends line `j` when `w`, the text of the
/// deletion ending line `i`, ends with it.
pub open spec fn end_move(
    lv: Seq<Seq<(PatchOpType, Seq<char>)>>,
    i: int,
    j: int,
    w: Seq<char>,
    m: Seq<char>,
) -> Seq<Seq<(PatchOpType, Seq<char>)>> {
    if m.len() <= w.len() && w.skip(w.len() - m.len()) == m {
        move_end_spec(lv, i, j, m)
    } else {
        lv
    }
}

/// The scan of `normalize_line_end` from line `j` on, `w` being the text of
/// the deletion ending line `i`: each line looked at is normalized; lines of
/// deletions are passed over; at a line that is an equal run, alone or
/// after a deletion, the text moves (see `end_move`) and the scan stops;
/// any other line stops it.
pub open spec fn end_scan(
    lv: Seq<Seq<(PatchOpType, Seq<char>)>>,
    i: int,
    j: int,
    w: Seq<char>,
) -> Seq<Seq<(PatchOpType, Seq<char>)>>
    decreases lv.len() - j,
{
    if j < 0 || j >= lv.len() {
        lv
    } else {
        let lv1 = lv.update(j, spec_normalize(lv[j]));
        let t = lv1[j];
        if t.len() == 0 {
            end_scan(lv1, i, j + 1, w)
        } else if t.len() == 1 {
            if t[0].0 == PatchOpType::Del {
                end_scan(lv1, i, j + 1, w)
            } else if t[0].0 != PatchOpType::Eql {
                lv1
            } else {
                end_move(lv1, i, j, w, t[0].1)
            }
        } else if t.len() > 2 || t[0].0 != PatchOpType::Del {
            lv1
        } else if t[1].0 == PatchOpType::Del {
            end_scan(lv1, i, j + 1, w)
        } else if t[1].0 != PatchOpType::Eql {
            lv1
        } else {
            end_move(lv1, i, j, w, t[1].1)
        }
    }
}

/// What `normalize_line_end` makes of the lines.
pub open spec fn line_end_spec(lv: Seq<Seq<(PatchOpType, Seq<char>)>>, i: int) -> Seq<Seq<(PatchOpType, Seq<char>)>> {
    let l = lv[i];
    if l.len() < 2 || l.last().0 != PatchOpType::Del {
        lv
    } else {
        end_scan(lv, i, i + 1, l.last().1)
    }
}

/// Moves the equal text that starts line `i`, whose other runs are all of
/// kind `x`, into line `j`, which starts with a run of kind `x` of that same
/// text followed by an equal run; the lines between are all of kind `x`.
#[verifier::rlimit(40)]
fn move_start(lines: &mut Vec<Patch>, i: usize, j: usize, x: PatchOpType)
    requires
        i < j < old(lines)@.len(),
        x == PatchOpType::Del || x == PatchOpType::Ins,
        old(lines)@[i as int]@.len() >= 2,
        old(lines)@[i as int]@[0].0 == PatchOpType::Eql,
        forall|q: int| 1 <= q < old(lines)@[i as int]@.len() ==> (#[trigger] old(lines)@[i as int]@[q]).0 == x,
        old(lines)@[j as int]@.len() >= 2,
        old(lines)@[j as int]@[0].0 == x,
        old(lines)@[j as int]@[1].0 == PatchOpType::Eql,
        old(lines)@[j as int]@[0].1@ == old(lines)@[i as int]@[0].1@,
        forall|q: int| i < q < j ==> all_kind(patch_view(#[trigger] old(lines)@[q]@), x),
    ensures
        final(lines)@.len() == old(lines)@.len(),
        lines_view(final(lines)@) == move_start_spec(lines_view(old(lines)@), i as int, j as int, x),
        patch_src(flat(lines_view(final(lines)@))) == patch_src(flat(lines_view(old(lines)@))),
        patch_dst(flat(lines_view(final(lines)@))) == patch_dst(flat(lines_view(old(lines)@))),
{
    let ghost before = lines@;
    let ghost lv0 = lines_view(before);
    let pfx = lines[i][0].1.clone();
    let li_first = joined(pfx.as_str(), lines[i][1].1.as_str());
    let mut li: Patch = Vec::new();
    li.push((x, li_first));
    let mut rest_i = copy_line(&lines[i], 2);
    li.append(&mut rest_i);
    let lj_first = joined(pfx.as_str(), lines[j][1].1.as_str());
    let mut lj: Patch = Vec::new();
    lj.push((PatchOpType::Eql, lj_first));
    let mut rest_j = copy_line(&lines[j], 2);
    lj.append(&mut rest_j);
    let ghost liv = patch_view(li@);
    let ghost ljv = patch_view(lj@);
    lines.set(i, li);
    lines.set(j, lj);
    proof {
        let lv1 = lines_view(lines@);
        let big_l = lv0[i as int];
        let big_j = lv0[j as int];
        let p = big_l[0].1;
        let a = big_l[1].1;
        let r = big_j[1].1;
        let rl = big_l.skip(2);
        let rj = big_j.skip(2);
        assert(big_l == patch_view(before[i as int]@));
        assert(big_j == patch_view(before[j as int]@));
        assert(big_l =~= seq![big_l[0]] + (seq![big_l[1]] + rl));
        assert(big_j =~= seq![big_j[0]] + (seq![big_j[1]] + rj));
        assert(liv =~= seq![(x, p + a)] + rl);
        assert(ljv =~= seq![(PatchOpType::Eql, p + r)] + rj);
        lemma_texts_cons(big_l[0], seq![big_l[1]] + rl);
        lemma_texts_cons(big_l[1], rl);
        lemma_texts_cons(big_j[0], seq![big_j[1]] + rj);
        lemma_texts_cons(big_j[1], rj);
        lemma_texts_cons((x, p + a), rl);
        lemma_texts_cons((PatchOpType::Eql, p + r), rj);
        assert(all_kind(rl, x)) by {
            assert forall|q: int| 0 <= q < rl.len() implies (#[trigger] rl[q]).0 == x by {
                assert(rl[q] == big_l[q + 2]);
                assert(big_l[q + 2] == patch_view(before[i as int]@)[q + 2]);
            }
        }
        lemma_all_kind_texts(rl, x);
        let mid = lv0.subrange(i + 1, j as int);
        assert forall|q: int| 0 <= q < mid.len() implies all_kind(#[trigger] mid[q], x) by {
            assert(mid[q] == lv0[i + 1 + q]);
            assert(all_kind(patch_view(before[i + 1 + q]@), x));
        }
        lemma_flat_all_kind(mid, x);
        lemma_all_kind_texts(flat(mid), x);
        assert(lv1 =~= lv0.update(i as int, liv).update(j as int, ljv));
        assert(lv1.take(i as int) =~= lv0.take(i as int));
        assert(lv1.subrange(i + 1, j as int) =~= mid);
        assert(lv1.skip(j + 1) =~= lv0.skip(j + 1));
        lemma_flat_two(lv0, i as int, j as int);
        lemma_flat_two(lv1, i as int, j as int);
        assert(patch_src(flat(lv1)) =~= patch_src(flat(lv0)));
        assert(patch_dst(flat(lv1)) =~= patch_dst(flat(lv0)));
    }
}


/// Moves the text `m` that ends the last run of line `i`, a deletion, out
/// of it into an equal run after it, and turns the equal run `m` that ends
/// line `j` into a deletion (line `j` being that equal run, alone or after
/// a deletion); the lines between are all deletions. Both lines are
/// normalized after.
#[verifier::rlimit(40)]
fn move_end(lines: &mut Vec<Patch>, i: usize, j: usize, m: &String)
    requires
        i < j < old(lines)@.len(),
        old(lines)@[i as int]@.len() >= 2,
        old(lines)@[i as int]@.last().0 == PatchOpType::Del,
        m@.len() <= old(lines)@[i as int]@.last().1@.len(),
        old(lines)@[i as int]@.last().1@.skip(old(lines)@[i as int]@.last().1@.len() - m@.len()) == m@,
        old(lines)@[j as int]@.len() == 1 || old(lines)@[j as int]@.len() == 2,
        old(lines)@[j as int]@.last() == (PatchOpType::Eql, *m),
        old(lines)@[j as int]@.len() == 2 ==> old(lines)@[j as int]@[0].0 == PatchOpType::Del,
        forall|q: int| i < q < j ==> all_kind(patch_view(#[trigger] old(lines)@[q]@), PatchOpType::Del),
    ensures
        final(lines)@.len() == old(lines)@.len(),
        lines_view(final(lines)@) == move_end_spec(lines_view(old(lines)@), i as int, j as int, m@),
        patch_src(flat(lines_view(final(lines)@))) == patch_src(flat(lines_view(old(lines)@))),
        patch_dst(flat(lines_view(final(lines)@))) == patch_dst(flat(lines_view(old(lines)@))),
{
    let ghost before = lines@;
    let ghost lv0 = lines_view(before);
    let n = lines[i].len();
    let last_chars = str_chars(lines[i][n - 1].1.as_str());
    let keep = chars_text(&last_chars, 0, last_chars.len() - m.as_str().unicode_len());
    let mut li = copy_line(&lines[i], 0);
    li.set(n - 1, (PatchOpType::Del, keep));
    li.push((PatchOpType::Eql, m.clone()));
    let mut lj = copy_line(&lines[j], 0);
    let nj = lj.len();
    lj.set(nj - 1, (PatchOpType::Del, m.clone()));
    let ghost liv = patch_view(li@);
    let ghost ljv = patch_view(lj@);
    let li = str_diff::normalize(li);
    let lj = str_diff::normalize(lj);
    lines.set(i, li);
    lines.set(j, lj);
    proof {
        let lv1 = lines_view(lines@);
        let big_l = lv0[i as int];
        let big_j = lv0[j as int];
        let w = big_l.last().1;
        let k = w.take(w.len() - m@.len());
        assert(w =~= k + m@);
        assert(big_l == patch_view(before[i as int]@));
        assert(big_j == patch_view(before[j as int]@));
        let pl = big_l.drop_last();
        assert(liv =~= pl.push((PatchOpType::Del, k)).push((PatchOpType::Eql, m@)));
        assert(big_l =~= pl.push((PatchOpType::Del, w)));
        lemma_texts_push(pl, (PatchOpType::Del, w));
        lemma_texts_push(pl, (PatchOpType::Del, k));
        lemma_texts_push(pl.push((PatchOpType::Del, k)), (PatchOpType::Eql, m@));
        assert(patch_src(liv) =~= patch_src(big_l));
        assert(patch_dst(liv) =~= patch_dst(big_l) + m@);
        let pj = big_j.drop_last();
        assert(ljv =~= pj.push((PatchOpType::Del, m@)));
        assert(big_j =~= pj.push((PatchOpType::Eql, m@)));
        lemma_texts_push(pj, (PatchOpType::Del, m@));
        lemma_texts_push(pj, (PatchOpType::Eql, m@));
        assert(patch_src(ljv) =~= patch_src(big_j));
        if big_j.len() == 2 {
            assert(pj =~= seq![big_j[0]]);
            lemma_one_run_texts(big_j[0]);
        } else {
            assert(pj =~= Seq::<(PatchOpType, Seq<char>)>::empty());
        }
        assert(patch_dst(pj) =~= Seq::<char>::empty());
        assert(patch_dst(big_j) =~= m@);
        assert(patch_dst(ljv) =~= Seq::<char>::empty());
        lemma_normalize_keeps_texts(liv);
        lemma_normalize_keeps_texts(ljv);
        assert(lv1 =~= lv0.update(i as int, spec_normalize(liv)).update(j as int, spec_normalize(ljv)));
        let mid = lv0.subrange(i + 1, j as int);
        assert forall|q: int| 0 <= q < mid.len() implies all_kind(#[trigger] mid[q], PatchOpType::Del) by {
            assert(mid[q] == lv0[i + 1 + q]);
            assert(all_kind(patch_view(before[i + 1 + q]@), PatchOpType::Del));
        }
        lemma_flat_all_kind(mid, PatchOpType::Del);
        lemma_all_kind_texts(flat(mid), PatchOpType::Del);
        assert(lv1.take(i as int) =~= lv0.take(i as int));
        assert(lv1.subrange(i + 1, j as int) =~= mid);
        assert(lv1.skip(j + 1) =~= lv0.skip(j + 1));
        lemma_flat_two(lv0, i as int, j as int);
        lemma_flat_two(lv1, i as int, j as int);
        assert(patch_src(flat(lv1)) =~= patch_src(flat(lv0)));
        assert(patch_dst(flat(lv1)) =~= patch_dst(flat(lv0)));
    }
}

/// When line `i` is an equal run followed by runs of one edit kind, and a
/// later line, after lines only of that kind, starts with a run of that
/// kind with the same text followed by an equal run: the equal text moves
/// from the start of line `i` to that later line (see `move_start`). The
/// lines looked at on the way are normalized.
fn normalize_line_start(lines: &mut Vec<Patch>, i: usize)
    requires
        i < old(lines)@.len(),
    ensures
        final(lines)@.len() == old(lines)@.len(),
        lines_view(final(lines)@) == line_start_spec(lines_view(old(lines)@), i as int),
        patch_src(flat(lines_view(final(lines)@))) == patch_src(flat(lines_view(old(lines)@))),
        patch_dst(flat(lines_view(final(lines)@))) == patch_dst(flat(lines_view(old(lines)@))),
{
    if lines[i].len() < 2 {
        return;
    }
    if lines[i][0].0 != PatchOpType::Eql {
        return;
    }
    let x = lines[i][1].0;
    if x != PatchOpType::Del && x != PatchOpType::Ins {
        return;
    }
    if !line_all_kind(&lines[i], 2, x) {
        proof {
            let l = lines_view(lines@)[i as int];
            assert(l == patch_view(lines@[i as int]@));
            let q = choose|q: int| 2 <= q < lines@[i as int]@.len() && !((#[trigger] lines@[i as int]@[q]).0 == x);
            assert(l[q].0 == lines@[i as int]@[q].0);
        }
        return;
    }
    let len = lines.len();
    let ghost s0 = patch_src(flat(lines_view(lines@)));
    let ghost d0 = patch_dst(flat(lines_view(lines@)));
    let ghost line_i = lines@[i as int];
    proof {
        let l = lines_view(lines@)[i as int];
        assert(l == patch_view(line_i@));
        assert forall|q: int| 2 <= q < l.len() implies (#[trigger] l[q]).0 == x by {
            assert(l[q].0 == line_i@[q].0);
        }
    }
    let mut j = i + 1;
    while j < len
        invariant
            lines@.len() == len,
            len == old(lines)@.len(),
            i < j <= len,
            lines@[i as int] == line_i,
            line_i@.len() >= 2,
            line_i@[0].0 == PatchOpType::Eql,
            start_scan(lines_view(lines@), i as int, j as int, x) == line_start_spec(lines_view(old(lines)@), i as int),
            x == PatchOpType::Del || x == PatchOpType::Ins,
            forall|q: int| 1 <= q < line_i@.len() ==> (#[trigger] line_i@[q]).0 == x,
            forall|q: int| i < q < j ==> all_kind(patch_view(#[trigger] lines@[q]@), x),
            patch_src(flat(lines_view(lines@))) == s0,
            patch_dst(flat(lines_view(lines@))) == d0,
            s0 == patch_src(flat(lines_view(old(lines)@))),
            d0 == patch_dst(flat(lines_view(old(lines)@))),
        decreases len - j,
    {
        let ghost lvb = lines_view(lines@);
        normalize_at(lines, j);
        proof {
            assert(lines_view(lines@)[i as int] == patch_view(line_i@));
            assert(lines_view(lines@)[j as int] == patch_view(lines@[j as int]@));
        }
        let t = &lines[j];
        if t.len() > 1 && t[0].0 == x && t[1].0 == PatchOpType::Eql && t[0].1 == lines[i][0].1 {
            move_start(lines, i, j, x);
            return;
        }
        if !line_all_kind(&lines[j], 0, x) {
            proof {
                let v = patch_view(lines@[j as int]@);
                assert(!all_kind(v, x)) by {
                    let q = choose|q: int| 0 <= q < lines@[j as int]@.len() && !((#[trigger] lines@[j as int]@[q]).0 == x);
                    assert(v[q].0 == lines@[j as int]@[q].0);
                }
            }
            return;
        }
        proof {
            let v = patch_view(lines@[j as int]@);
            assert forall|q: int| 0 <= q < v.len() implies (#[trigger] v[q]).0 == x by {
                assert(v[q].0 == lines@[j as int]@[q].0);
            }
        }
        j = j + 1;
    }
}

/// When line `i` ends with a deletion whose text ends with the text of an
/// equal run that ends a later line (alone, or after a deletion), with only
/// deletions in between: that text becomes an equal run ending line `i`
/// and a deletion in the later line (see `move_end`). The lines looked at
/// on the way are normalized.
fn normalize_line_end(lines: &mut Vec<Patch>, i: usize)
    requires
        i < old(lines)@.len(),
    ensures
        final(lines)@.len() == old(lines)@.len(),
        lines_view(final(lines)@) == line_end_spec(lines_view(old(lines)@), i as int),
        patch_src(flat(lines_view(final(lines)@))) == patch_src(flat(lines_view(old(lines)@))),
        patch_dst(flat(lines_view(final(lines)@))) == patch_dst(flat(lines_view(old(lines)@))),
{
    let n = lines[i].len();
    if n < 2 {
        return;
    }
    if lines[i][n - 1].0 != PatchOpType::Del {
        return;
    }
    let last_str = lines[i][n - 1].1.clone();
    let len = lines.len();
    let ghost s0 = patch_src(flat(lines_view(lines@)));
    let ghost d0 = patch_dst(flat(lines_view(lines@)));
    let ghost line_i = lines@[i as int];
    proof {
        assert(lines_view(lines@)[i as int] == patch_view(line_i@));
    }
    let mut j = i + 1;
    while j < len
        invariant
            lines@.len() == len,
            len == old(lines)@.len(),
            i < j <= len,
            lines@[i as int] == line_i,
            line_i@.len() >= 2,
            n == line_i@.len(),
            line_i@.last().0 == PatchOpType::Del,
            last_str == line_i@.last().1,
            end_scan(lines_view(lines@), i as int, j as int, last_str@) == line_end_spec(lines_view(old(lines)@), i as int),
            forall|q: int| i < q < j ==> all_kind(patch_view(#[trigger] lines@[q]@), PatchOpType::Del),
            patch_src(flat(lines_view(lines@))) == s0,
            patch_dst(flat(lines_view(lines@))) == d0,
            s0 == patch_src(flat(lines_view(old(lines)@))),
            d0 == patch_dst(flat(lines_view(old(lines)@))),
        decreases len - j,
    {
        normalize_at(lines, j);
        let tl = lines[j].len();
        let ghost v = patch_view(lines@[j as int]@);
        proof {
            assert(lines_view(lines@)[i as int] == patch_view(line_i@));
            assert(lines_view(lines@)[j as int] == v);
        }
        if tl == 0 {
            assert(v.len() == 0);
            j = j + 1;
            continue;
        }
        let last_kind = lines[j][tl - 1].0;
        if tl == 1 {
            if last_kind == PatchOpType::Del {
                assert(v[0].0 == PatchOpType::Del);
                j = j + 1;
                continue;
            }
            if last_kind != PatchOpType::Eql {
                return;
            }
        } else {
            if tl > 2 {
                return;
            }
            if lines[j][0].0 != PatchOpType::Del {
                return;
            }
            if last_kind == PatchOpType::Del {
                assert(v[0].0 == PatchOpType::Del && v[1].0 == PatchOpType::Del);
                j = j + 1;
                continue;
            }
            if last_kind != PatchOpType::Eql {
                return;
            }
        }
        let move_str = lines[j][tl - 1].1.clone();
        if !str_diff::text_ends_with(last_str.as_str(), move_str.as_str()) {
            return;
        }
        move_end(lines, i, j, &move_str);
        return;
    }
}

/// A text patch grouped by line: the runs are split after each newline,
/// each line's runs are normalized, and equal text at the start or end of a
/// line is moved over lines of edits where that lines up the changes. The
/// lines, one after the other, have the patch's source and destination
/// texts.
pub fn agg(patch: Patch) -> (res: Vec<Patch>)
    ensures
        patch_src(flat(lines_view(res@))) == patch_src(patch_view(patch@)),
        patch_dst(flat(lines_view(res@))) == patch_dst(patch_view(patch@)),
{
    let mut lines = split_lines(&patch);
    let len = lines.len();
    let mut i: usize = 0;
    while i < len
        invariant
            lines@.len() == len,
            patch_src(flat(lines_view(lines@))) == patch_src(patch_view(patch@)),
            patch_dst(flat(lines_view(lines@))) == patch_dst(patch_view(patch@)),
        decreases len - i,
    {
        normalize_at(&mut lines, i);
        normalize_line_start(&mut lines, i);
        normalize_line_end(&mut lines, i);
        i = i + 1;
    }
    lines
}


// ---------------------------------------------------------------------------
// Line diffs
// ---------------------------------------------------------------------------

/// The lines joined into one text, each followed by a newline.
pub open spec fn lines_text(ls: Seq<Seq<char>>) -> Seq<char>
    decreases ls.len(),
{
    if ls.len() == 0 {
        Seq::empty()
    } else {
        lines_text(ls.drop_last()) + ls.last() + seq!['\n']
    }
}

/// The texts of the lines.
pub open spec fn texts_view(ls: Seq<String>) -> Seq<Seq<char>> {
    ls.map_values(|t: String| t@)
}

/// The kind and the next source and destination line indices for a line of
/// the aggregated text patch, the source and destination indices before it
/// being `si` and `di`. The line's last run is dropped when its text is a
/// lone newline. A line left empty counts by the kind of that run; the
/// final line is a change of both lines while both texts have lines left,
/// else a deletion or an insertion; any other line is equal when it is one
/// equal run, a change when it ends with an equal run, else an insertion
/// or a deletion by its last run.
pub open spec fn step_kind(
    line: Seq<(PatchOpType, Seq<char>)>,
    is_last: bool,
    si: int,
    di: int,
    sl: int,
    dl: int,
) -> (LinePatchOpType, int, int) {
    let last = line.last();
    let n2 = if last.1 == seq!['\n'] {
        line.len() - 1
    } else {
        line.len() as int
    };
    if n2 == 0 {
        match last.0 {
            PatchOpType::Eql => (LinePatchOpType::Eql, si + 1, di + 1),
            PatchOpType::Ins => (LinePatchOpType::Ins, si, di + 1),
            PatchOpType::Del => (LinePatchOpType::Del, si + 1, di),
        }
    } else if is_last {
        if si + 1 < sl {
            if di + 1 < dl {
                (
                    if n2 == 1 && line[0].0 == PatchOpType::Eql {
                        LinePatchOpType::Eql
                    } else {
                        LinePatchOpType::Mix
                    },
                    si + 1,
                    di + 1,
                )
            } else {
                (LinePatchOpType::Del, si + 1, di)
            }
        } else {
            (LinePatchOpType::Ins, si, di + 1)
        }
    } else if n2 == 1 && line[0].0 == last.0 && line[0].0 == PatchOpType::Eql {
        (LinePatchOpType::Eql, si + 1, di + 1)
    } else if last.0 == PatchOpType::Eql {
        (LinePatchOpType::Mix, si + 1, di + 1)
    } else if last.0 == PatchOpType::Ins {
        (LinePatchOpType::Ins, si, di + 1)
    } else {
        (LinePatchOpType::Del, si + 1, di)
    }
}

/// An equal line whose source and destination lines differ is a change.
pub open spec fn fix_kind(t: LinePatchOpType, si: int, di: int, src: Seq<Seq<char>>, dst: Seq<Seq<char>>) -> LinePatchOpType {
    if t == LinePatchOpType::Eql && 0 <= si < src.len() && 0 <= di < dst.len() && src[si] != dst[di] {
        LinePatchOpType::Mix
    } else {
        t
    }
}

/// The line patch entries for the aggregated lines from `k` on: one per
/// nonempty line (see `step_kind` and `fix_kind`).
pub open spec fn classify(
    ls: Seq<Seq<(PatchOpType, Seq<char>)>>,
    k: int,
    si: int,
    di: int,
    src: Seq<Seq<char>>,
    dst: Seq<Seq<char>>,
) -> Seq<LinePatchOp>
    decreases ls.len() - k,
{
    if k < 0 || k >= ls.len() {
        Seq::empty()
    } else if ls[k].len() == 0 {
        classify(ls, k + 1, si, di, src, dst)
    } else {
        let (t, s2, d2) = step_kind(ls[k], k + 1 == ls.len(), si, di, src.len() as int, dst.len() as int);
        seq![(fix_kind(t, s2, d2, src, dst), s2 as isize, d2 as isize)] + classify(ls, k + 1, s2, d2, src, dst)
    }
}

/// Joins lines into one text, each followed by a newline.
fn join_lines(ls: &[String]) -> (res: String)
    ensures
        res@ == lines_text(texts_view(ls@)),
{
    let mut out = String::new();
    let mut i: usize = 0;
    while i < ls.len()
        invariant
            i <= ls@.len(),
            out@ == lines_text(texts_view(ls@).take(i as int)),
        decreases ls.len() - i,
    {
        out.append(ls[i].as_str());
        out.push('\n');
        proof {
            let tv = texts_view(ls@);
            assert(tv.take(i + 1).drop_last() =~= tv.take(i as int));
            assert(tv.take(i + 1).last() == ls@[i as int]@);
        }
        i = i + 1;
    }
    assert(texts_view(ls@).take(ls@.len() as int) =~= texts_view(ls@));
    out
}

/// The line patch entries for aggregated lines (see `classify`).
fn classify_lines(lines: &Vec<Patch>, src: &[String], dst: &[String]) -> (res: LinePatch)
    requires
        lines@.len() < isize::MAX,
        src@.len() <= isize::MAX,
        dst@.len() <= isize::MAX,
    ensures
        res@ == classify(lines_view(lines@), 0, -1, -1, texts_view(src@), texts_view(dst@)),
{
    let ghost lv = lines_view(lines@);
    let ghost sv = texts_view(src@);
    let ghost dv = texts_view(dst@);
    let mut patch: LinePatch = Vec::new();
    let mut src_idx: isize = -1;
    let mut dst_idx: isize = -1;
    let src_len = src.len() as isize;
    let dst_len = dst.len() as isize;
    let total = lines.len();
    let mut i: usize = 0;
    while i < total
        invariant
            total == lines@.len(),
            total < isize::MAX,
            lv == lines_view(lines@),
            sv == texts_view(src@),
            dv == texts_view(dst@),
            src_len == src@.len(),
            dst_len == dst@.len(),
            i <= total,
            -1 <= src_idx < i,
            -1 <= dst_idx < i,
            classify(lv, 0, -1, -1, sv, dv) == patch@ + classify(lv, i as int, src_idx as int, dst_idx as int, sv, dv),
        decreases total - i,
    {
        let line = &lines[i];
        let n = line.len();
        assert(lv[i as int] == patch_view(line@));
        if n == 0 {
            i = i + 1;
            continue;
        }
        let last_ty = line[n - 1].0;
        let last_nl = line[n - 1].1.as_str().unicode_len() == 1 && line[n - 1].1.as_str().get_char(0) == '\n';
        proof {
            let lt = patch_view(line@).last().1;
            assert(lt == line@[n - 1].1@);
            if last_nl {
                assert(lt =~= seq!['\n']);
            } else {
                if lt =~= seq!['\n'] {
                    assert(lt.len() == 1 && lt[0] == '\n');
                }
            }
        }
        let n2 = if last_nl { n - 1 } else { n };
        let is_last = i + 1 == total;
        let (kind, s2, d2) = if n2 == 0 {
            match last_ty {
                PatchOpType::Eql => (LinePatchOpType::Eql, src_idx + 1, dst_idx + 1),
                PatchOpType::Ins => (LinePatchOpType::Ins, src_idx, dst_idx + 1),
                PatchOpType::Del => (LinePatchOpType::Del, src_idx + 1, dst_idx),
            }
        } else if is_last {
            if src_idx + 1 < src_len {
                if dst_idx + 1 < dst_len {
                    (
                        if n2 == 1 && line[0].0 == PatchOpType::Eql {
                            LinePatchOpType::Eql
                        } else {
                            LinePatchOpType::Mix
                        },
                        src_idx + 1,
                        dst_idx + 1,
                    )
                } else {
                    (LinePatchOpType::Del, src_idx + 1, dst_idx)
                }
            } else {
                (LinePatchOpType::Ins, src_idx, dst_idx + 1)
            }
        } else {
            let first_ty = line[0].0;
            if n2 == 1 && first_ty == last_ty && first_ty == PatchOpType::Eql {
                (LinePatchOpType::Eql, src_idx + 1, dst_idx + 1)
            } else if last_ty == PatchOpType::Eql {
                (LinePatchOpType::Mix, src_idx + 1, dst_idx + 1)
            } else if last_ty == PatchOpType::Ins {
                (LinePatchOpType::Ins, src_idx, dst_idx + 1)
            } else {
                (LinePatchOpType::Del, src_idx + 1, dst_idx)
            }
        };
        let mut kind = kind;
        if kind == LinePatchOpType::Eql && s2 >= 0 && d2 >= 0 && s2 < src_len && d2 < dst_len
            && src[s2 as usize] != dst[d2 as usize] {
            kind = LinePatchOpType::Mix;
        }
        proof {
            assert(patch_view(line@)[0].0 == line@[0].0);
            assert(patch_view(line@).last().0 == line@[n - 1].0);
            if 0 <= s2 < src_len && 0 <= d2 < dst_len {
                assert(sv[s2 as int] == src@[s2 as int]@);
                assert(dv[d2 as int] == dst@[d2 as int]@);
            }
        }
        let ghost before = patch@;
        patch.push((kind, s2, d2));
        proof {
            assert(patch@ + classify(lv, i + 1, s2 as int, d2 as int, sv, dv) =~= before + (seq![(kind, s2, d2)]
                + classify(lv, i + 1, s2 as int, d2 as int, sv, dv)));
        }
        src_idx = s2;
        dst_idx = d2;
        i = i + 1;
    }
    assert(patch@ + Seq::<LinePatchOp>::empty() =~= patch@);
    patch
}


/// Each line adds at least its newline to the joined text.
proof fn lemma_lines_text_len(ls: Seq<Seq<char>>)
    ensures
        lines_text(ls).len() >= ls.len(),
    decreases ls.len(),
{
    if ls.len() > 0 {
        lemma_lines_text_len(ls.drop_last());
    }
}

/// A line diff: entries telling which source lines are deleted, which
/// destination lines are inserted, and which pairs of lines are equal or
/// changed. With no destination lines every source line is deleted; with no
/// source lines every destination line is inserted; equal texts give no
/// entry; otherwise the text diff of the joined texts, grouped by line (see
/// `agg`), gives the entries line by line (see `classify`).
pub fn diff(src: &[String], dst: &[String]) -> (res: LinePatch)
    requires
        lines_text(texts_view(src@)).len() + lines_text(texts_view(dst@)).len() <= usize::MAX / 4,
    ensures
        dst@.len() == 0 ==> res@ == Seq::new(
            src@.len(),
            |i: int| (LinePatchOpType::Del, i as isize, -1isize),
        ),
        dst@.len() > 0 && src@.len() == 0 ==> res@ == Seq::new(
            dst@.len(),
            |i: int| (LinePatchOpType::Ins, -1isize, i as isize),
        ),
        src@.len() > 0 && dst@.len() > 0 && lines_text(texts_view(src@)) == lines_text(texts_view(dst@))
            ==> res@.len() == 0,
        src@.len() > 0 && dst@.len() > 0 && lines_text(texts_view(src@)) != lines_text(texts_view(dst@))
            ==> exists|ls: Seq<Seq<(PatchOpType, Seq<char>)>>|
            patch_src(flat(ls)) == lines_text(texts_view(src@)) && patch_dst(flat(ls)) == lines_text(
                texts_view(dst@),
            ) && (ls.len() < isize::MAX ==> res@ == classify(
                ls,
                0,
                -1,
                -1,
                texts_view(src@),
                texts_view(dst@),
            )),
{
    proof {
        lemma_lines_text_len(texts_view(src@));
        lemma_lines_text_len(texts_view(dst@));
    }
    if dst.len() == 0 {
        let mut out: LinePatch = Vec::new();
        let mut i: usize = 0;
        while i < src.len()
            invariant
                i <= src@.len(),
                src@.len() <= usize::MAX / 4,
                out@ == Seq::new(i as nat, |k: int| (LinePatchOpType::Del, k as isize, -1isize)),
            decreases src.len() - i,
        {
            out.push((LinePatchOpType::Del, i as isize, -1));
            assert(out@ =~= Seq::new((i + 1) as nat, |k: int| (LinePatchOpType::Del, k as isize, -1isize)));
            i = i + 1;
        }
        return out;
    }
    if src.len() == 0 {
        let mut out: LinePatch = Vec::new();
        let mut i: usize = 0;
        while i < dst.len()
            invariant
                i <= dst@.len(),
                dst@.len() <= usize::MAX / 4,
                out@ == Seq::new(i as nat, |k: int| (LinePatchOpType::Ins, -1isize, k as isize)),
            decreases dst.len() - i,
        {
            out.push((LinePatchOpType::Ins, -1, i as isize));
            assert(out@ =~= Seq::new((i + 1) as nat, |k: int| (LinePatchOpType::Ins, -1isize, k as isize)));
            i = i + 1;
        }
        return out;
    }
    let src_txt = join_lines(src);
    let dst_txt = join_lines(dst);
    if src_txt == dst_txt {
        return Vec::new();
    }
    let str_patch = str_diff::diff(src_txt.as_str(), dst_txt.as_str());
    let lines = agg(str_patch);
    if lines.len() >= isize::MAX as usize {
        return Vec::new();
    }
    let res = classify_lines(&lines, src, dst);
    proof {
        assert(patch_src(flat(lines_view(lines@))) == lines_text(texts_view(src@)));
    }
    res
}

} // verus!
