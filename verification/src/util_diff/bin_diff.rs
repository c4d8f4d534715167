//! Binary diffs, carried out as text diffs over the characters U+0000..U+00FF
//! that stand for the bytes.

use vstd::prelude::*;
use crate::text::{chars_to_string, str_chars};
use crate::util_diff::str_diff::{
    self, patch_dst, patch_src, patch_view, spec_apply, EditView, Patch, StrEdit,
};

verus! {

/// The characters standing for the bytes.
pub open spec fn spec_to_str(b: Seq<u8>) -> Seq<char> {
    Seq::new(b.len(), |i: int| b[i] as char)
}

/// The bytes the characters stand for (each character's scalar value cut to
/// its low eight bits).
pub open spec fn spec_to_bin(s: Seq<char>) -> Seq<u8> {
    Seq::new(s.len(), |i: int| (s[i] as u32) as u8)
}

/// Bytes survive the trip through characters.
pub proof fn lemma_to_bin_to_str(b: Seq<u8>)
    ensures
        spec_to_bin(spec_to_str(b)) == b,
{
    assert forall|i: int| 0 <= i < b.len() implies spec_to_bin(spec_to_str(b))[i] == b[i] by {
        let c = b[i] as char;
        assert((c as u32) as u8 == b[i]);
    }
    assert(spec_to_bin(spec_to_str(b)) =~= b);
}

/// The text whose characters stand for the bytes.
pub fn to_str(buf: &[u8]) -> (res: String)
    ensures
        res@ == spec_to_str(buf@),
{
    let mut v: Vec<char> = Vec::new();
    let mut i: usize = 0;
    while i < buf.len()
        invariant
            i <= buf.len(),
            v@ == spec_to_str(buf@).take(i as int),
        decreases buf.len() - i,
    {
        v.push(buf[i] as char);
        assert(v@ =~= spec_to_str(buf@).take(i + 1));
        i = i + 1;
    }
    assert(spec_to_str(buf@).take(i as int) =~= spec_to_str(buf@));
    chars_to_string(v.as_slice())
}

/// The bytes the characters of the text stand for.
pub fn to_bin(s: &str) -> (res: Vec<u8>)
    ensures
        res@ == spec_to_bin(s@),
{
    let chars = str_chars(s);
    let mut out: Vec<u8> = Vec::new();
    let mut i: usize = 0;
    while i < chars.len()
        invariant
            i <= chars.len(),
            chars@ == s@,
            out@ == spec_to_bin(s@).take(i as int),
        decreases chars.len() - i,
    {
        out.push((chars[i] as u32) as u8);
        assert(out@ =~= spec_to_bin(s@).take(i + 1));
        i = i + 1;
    }
    assert(spec_to_bin(s@).take(i as int) =~= spec_to_bin(s@));
    out
}

/// A diff of two byte strings: a text patch over the characters standing
/// for the bytes, whose source bytes are `src` and destination bytes `dst`.
pub fn diff(src: &[u8], dst: &[u8]) -> (res: Patch)
    requires
        src@.len() + dst@.len() <= usize::MAX / 4,
    ensures
        patch_src(patch_view(res@)) == spec_to_str(src@),
        patch_dst(patch_view(res@)) == spec_to_str(dst@),
        spec_to_bin(patch_src(patch_view(res@))) == src@,
        spec_to_bin(patch_dst(patch_view(res@))) == dst@,
        str_diff::is_merged(patch_view(res@)),
{
    let a = to_str(src);
    let b = to_str(dst);
    proof {
        lemma_to_bin_to_str(src@);
        lemma_to_bin_to_str(dst@);
    }
    str_diff::diff(a.as_str(), b.as_str())
}

/// One edit that applying a binary patch makes to the source bytes.
#[derive(Debug, Clone, PartialEq, Eq)]
pub enum BinEdit {
    Insert { pos: usize, bytes: Vec<u8> },
    Delete { pos: usize, len: usize },
}

/// The edits that carry the source bytes of the patch over into its
/// destination bytes: those of the text patch, with inserted text turned back
/// into bytes.
pub fn apply(patch: &Patch, src_len: usize) -> (res: Vec<BinEdit>)
    ensures
        res@.len() == spec_apply(patch_view(patch@), src_len as int).len(),
        forall|i: int|
            0 <= i < res@.len() ==> match (#[trigger] res@[i], spec_apply(patch_view(patch@), src_len as int)[i]) {
                (BinEdit::Insert { pos, bytes }, EditView::Insert(p, s)) => pos == p && bytes@
                    == spec_to_bin(s),
                (BinEdit::Delete { pos, len }, EditView::Delete(p, l, _)) => pos == p && len == l,
                _ => false,
            },
{
    let edits = str_diff::apply(patch, src_len);
    let ghost ev = edits@.map_values(|e: StrEdit| e.edit_view());
    let mut out: Vec<BinEdit> = Vec::new();
    let mut i: usize = 0;
    while i < edits.len()
        invariant
            i <= edits.len(),
            ev == edits@.map_values(|e: StrEdit| e.edit_view()),
            ev == spec_apply(patch_view(patch@), src_len as int),
            out@.len() == i,
            forall|k: int|
                0 <= k < i ==> match (#[trigger] out@[k], ev[k]) {
                    (BinEdit::Insert { pos, bytes }, EditView::Insert(p, s)) => pos == p && bytes@
                        == spec_to_bin(s),
                    (BinEdit::Delete { pos, len }, EditView::Delete(p, l, _)) => pos == p && len
                        == l,
                    _ => false,
                },
        decreases edits.len() - i,
    {
        let e = match &edits[i] {
            StrEdit::Insert { pos, text } => BinEdit::Insert { pos: *pos, bytes: to_bin(text.as_str()) },
            StrEdit::Delete { pos, len, .. } => BinEdit::Delete { pos: *pos, len: *len },
        };
        out.push(e);
        i = i + 1;
    }
    out
}

/// The source bytes of a binary patch.
pub fn src(patch: &Patch) -> (res: Vec<u8>)
    ensures
        res@ == spec_to_bin(patch_src(patch_view(patch@))),
{
    let s = str_diff::src(patch);
    to_bin(s.as_str())
}

/// The destination bytes of a binary patch.
pub fn dst(patch: &Patch) -> (res: Vec<u8>)
    ensures
        res@ == spec_to_bin(patch_dst(patch_view(patch@))),
{
    let s = str_diff::dst(patch);
    to_bin(s.as_str())
}

} // verus!
