//! A log of pending patches as one byte string: a version byte, then each
//! patch's bytes behind their length as four big-endian bytes.

use vstd::prelude::*;
use crate::patch::{spec_decode_patch, Patch, PatchError};

verus! {

/// The version byte that starts a log.
pub const PATCH_LOG_VERSION: u8 = 1u8;

/// The largest patch a log may hold, in bytes.
pub const MAX_PATCH_SIZE: usize = 10485760usize;

/// Failures of reading a log.
#[derive(Debug, Clone, Copy, PartialEq, Eq, Structural)]
pub enum PatchLogError {
    UnsupportedVersion(u8),
    TruncatedLengthHeader,
    PatchTooLarge(usize),
    TruncatedPatchData,
    PatchDecode(PatchError),
}

/// The four big-endian bytes of `n`.
pub open spec fn be32(n: u32) -> Seq<u8> {
    seq![(n / 0x1000000) as u8, (n / 0x10000 % 0x100) as u8, (n / 0x100 % 0x100) as u8, (n % 0x100) as u8]
}

/// The number that the four big-endian bytes at `i` give.
pub open spec fn be32_at(b: Seq<u8>, i: int) -> nat {
    (b[i] * 0x1000000 + b[i + 1] * 0x10000 + b[i + 2] * 0x100 + b[i + 3]) as nat
}

/// A patch's bytes behind their length (cut to 32 bits).
pub open spec fn frame(bin: Seq<u8>) -> Seq<u8> {
    be32(bin.len() as u32) + bin
}

/// The frames of the patches, one after the other.
pub open spec fn frames_bytes(bins: Seq<Seq<u8>>) -> Seq<u8>
    decreases bins.len(),
{
    if bins.len() == 0 {
        Seq::empty()
    } else {
        frame(bins[0]) + frames_bytes(bins.skip(1))
    }
}

/// The log of the patches' bytes: nothing for no patch, else the version
/// byte and the frames.
pub open spec fn spec_serialize(bins: Seq<Seq<u8>>) -> Seq<u8> {
    if bins.len() == 0 {
        Seq::empty()
    } else {
        seq![PATCH_LOG_VERSION] + frames_bytes(bins)
    }
}

/// The patches' bytes held by the frames from `offset` on, or the first
/// fault.
#[verifier::opaque]
pub open spec fn frames_from(data: Seq<u8>, offset: int) -> Result<Seq<Seq<u8>>, PatchLogError>
    decreases data.len() - offset,
{
    if offset >= data.len() {
        Ok(Seq::empty())
    } else if offset + 4 > data.len() {
        Err(PatchLogError::TruncatedLengthHeader)
    } else {
        let len = be32_at(data, offset);
        let o = offset + 4;
        if len > MAX_PATCH_SIZE {
            Err(PatchLogError::PatchTooLarge(len as usize))
        } else if len > data.len() - o {
            Err(PatchLogError::TruncatedPatchData)
        } else {
            match frames_from(data, o + len) {
                Err(e) => Err(e),
                Ok(rest) => Ok(seq![data.subrange(o, o + len)] + rest),
            }
        }
    }
}

/// The patches' bytes that a log holds: none in an empty log, else the
/// frames after a version byte of 1.
pub open spec fn spec_log_frames(data: Seq<u8>) -> Result<Seq<Seq<u8>>, PatchLogError> {
    if data.len() == 0 {
        Ok(Seq::empty())
    } else if data[0] != PATCH_LOG_VERSION {
        Err(PatchLogError::UnsupportedVersion(data[0]))
    } else {
        frames_from(data, 1)
    }
}

/// The bytes of the patches.
pub open spec fn patch_bins(patches: Seq<Patch>) -> Seq<Seq<u8>> {
    patches.map_values(|p: Patch| p.spec_bytes())
}

proof fn lemma_frames_push(bins: Seq<Seq<u8>>, b: Seq<u8>)
    ensures
        frames_bytes(bins.push(b)) == frames_bytes(bins) + frame(b),
    decreases bins.len(),
{
    if bins.len() == 0 {
        assert(bins.push(b).skip(1) =~= Seq::<Seq<u8>>::empty());
        assert(frames_bytes(bins.push(b).skip(1)) == Seq::<u8>::empty());
        assert(frames_bytes(bins.push(b)) =~= frame(b));
    } else {
        lemma_frames_push(bins.skip(1), b);
        assert(bins.push(b).skip(1) =~= bins.skip(1).push(b));
        assert(frame(bins[0]) + (frames_bytes(bins.skip(1)) + frame(b)) =~= frame(bins[0]) + frames_bytes(
            bins.skip(1),
        ) + frame(b));
    }
}

/// The four big-endian bytes of a number read back as the number.
proof fn lemma_be32(n: u32)
    ensures
        be32_at(be32(n), 0) == n,
{
    let b = be32(n);
    assert(b[0] * 0x1000000 + b[1] * 0x10000 + b[2] * 0x100 + b[3] == n) by (nonlinear_arith)
        requires
            b[0] == n / 0x1000000,
            b[1] == n / 0x10000 % 0x100,
            b[2] == n / 0x100 % 0x100,
            b[3] == n % 0x100,
            n < 0x1_0000_0000,
    ;
}

/// Writes the frame of a patch's bytes.
fn push_frame(out: &mut Vec<u8>, bin: &[u8])
    ensures
        final(out)@ == old(out)@ + frame(bin@),
{
    let n: u32 = bin.len() as u32;
    out.push((n / 0x1000000) as u8);
    out.push((n / 0x10000 % 0x100) as u8);
    out.push((n / 0x100 % 0x100) as u8);
    out.push((n % 0x100) as u8);
    let ghost mid = out@;
    let mut i: usize = 0;
    while i < bin.len()
        invariant
            i <= bin.len(),
            out@ == mid + bin@.take(i as int),
        decreases bin.len() - i,
    {
        out.push(bin[i]);
        assert(bin@.take(i + 1) =~= bin@.take(i as int).push(bin@[i as int]));
        i = i + 1;
    }
    assert(bin@.take(bin@.len() as int) =~= bin@);
    assert(mid =~= old(out)@ + be32(n));
}

/// The log of the patches: nothing for no patch, else the version byte and
/// each patch's bytes behind their length.
pub fn serialize_patches(patches: &[Patch]) -> (res: Vec<u8>)
    ensures
        res@ == spec_serialize(patch_bins(patches@)),
{
    let ghost bins = patch_bins(patches@);
    if patches.len() == 0 {
        return Vec::new();
    }
    let mut out: Vec<u8> = Vec::new();
    out.push(PATCH_LOG_VERSION);
    let mut i: usize = 0;
    assert(bins.take(0) =~= Seq::<Seq<u8>>::empty());
    while i < patches.len()
        invariant
            i <= patches.len(),
            bins == patch_bins(patches@),
            out@ == seq![PATCH_LOG_VERSION] + frames_bytes(bins.take(i as int)),
        decreases patches.len() - i,
    {
        let bin = patches[i].to_binary();
        push_frame(&mut out, bin.as_slice());
        proof {
            assert(bins.take(i + 1) =~= bins.take(i as int).push(bins[i as int]));
            lemma_frames_push(bins.take(i as int), bins[i as int]);
        }
        i = i + 1;
    }
    assert(bins.take(bins.len() as int) =~= bins);
    out
}

/// The log with one more patch: a new log for an empty one, else the frame
/// appended.
pub fn append_patch(existing: &[u8], patch: &Patch) -> (res: Vec<u8>)
    ensures
        res@ == if existing@.len() == 0 {
            seq![PATCH_LOG_VERSION] + frame(patch.spec_bytes())
        } else {
            existing@ + frame(patch.spec_bytes())
        },
{
    let bin = patch.to_binary();
    let mut out: Vec<u8> = Vec::new();
    if existing.len() == 0 {
        out.push(PATCH_LOG_VERSION);
    } else {
        let mut i: usize = 0;
        while i < existing.len()
            invariant
                i <= existing.len(),
                out@ == existing@.take(i as int),
            decreases existing.len() - i,
        {
            out.push(existing[i]);
            assert(existing@.take(i + 1) =~= existing@.take(i as int).push(existing@[i as int]));
            i = i + 1;
        }
        assert(existing@.take(existing@.len() as int) =~= existing@);
    }
    push_frame(&mut out, bin.as_slice());
    out
}

/// The frame at `offset`: the patch's bytes and the offset after them, or
/// the fault met there.
pub open spec fn frame_at(data: Seq<u8>, offset: int) -> Result<(Seq<u8>, int), PatchLogError> {
    if offset + 4 > data.len() {
        Err(PatchLogError::TruncatedLengthHeader)
    } else {
        let len = be32_at(data, offset);
        let o = offset + 4;
        if len > MAX_PATCH_SIZE {
            Err(PatchLogError::PatchTooLarge(len as usize))
        } else if len > data.len() - o {
            Err(PatchLogError::TruncatedPatchData)
        } else {
            Ok((data.subrange(o, o + len), o + len))
        }
    }
}

/// The first `k` frames from `offset` on and the offset after them, when
/// they are all there.
pub open spec fn frames_prefix(data: Seq<u8>, offset: int, k: nat) -> Option<(Seq<Seq<u8>>, int)>
    decreases k,
{
    if k == 0 {
        Some((Seq::empty(), offset))
    } else if offset >= data.len() {
        None
    } else {
        match frame_at(data, offset) {
            Ok((f, next)) => match frames_prefix(data, next, (k - 1) as nat) {
                Some((r, end)) => Some((seq![f] + r, end)),
                None => None,
            },
            Err(_) => None,
        }
    }
}

proof fn lemma_prefix_push(data: Seq<u8>, offset: int, k: nat, s: Seq<Seq<u8>>, end: int, f: Seq<u8>, next: int)
    requires
        frames_prefix(data, offset, k) == Some((s, end)),
        end < data.len(),
        frame_at(data, end) == Ok::<(Seq<u8>, int), PatchLogError>((f, next)),
    ensures
        frames_prefix(data, offset, k + 1) == Some((s.push(f), next)),
    decreases k,
{
    if k == 0 {
        assert(s =~= Seq::<Seq<u8>>::empty());
        assert(frames_prefix(data, next, 0) == Some((Seq::<Seq<u8>>::empty(), next)));
        assert(seq![f] + Seq::<Seq<u8>>::empty() =~= s.push(f));
    } else {
        let (f0, n0) = frame_at(data, offset)->Ok_0;
        let (r, e) = frames_prefix(data, n0, (k - 1) as nat)->Some_0;
        lemma_prefix_push(data, n0, (k - 1) as nat, r, e, f, next);
        assert(seq![f0] + r.push(f) =~= (seq![f0] + r).push(f));
    }
}

/// Whether decoding `data` as a patch is refused: only bytes that open a
/// JSON object (`{`) and do not decode are.
pub open spec fn refuses(data: Seq<u8>) -> bool {
    spec_decode_patch(data) matches Err(e) && e == PatchError::InvalidCbor && data.len() > 0 && data[0] == 0x7b
}

/// The patches that a log holds, in order: each frame decoded as a patch;
/// the first fault met going through the log is reported.
pub fn deserialize_patches(data: &[u8]) -> (res: Result<Vec<Patch>, PatchLogError>)
    ensures
        match res {
            Ok(ps) => spec_log_frames(data@) matches Ok(frames) && ps@.len() == frames.len() && forall|i: int|
                0 <= i < frames.len() ==> Patch::from_binary_outcome(frames[i], Ok(#[trigger] ps@[i])),
            Err(PatchLogError::PatchDecode(e)) => exists|k: nat|
                #[trigger] frames_prefix(data@, 1, k + 1) matches Some((fs, _)) && Patch::from_binary_outcome(
                    fs[k as int],
                    Err(e),
                ),
            Err(e) => spec_log_frames(data@) == Err::<Seq<Seq<u8>>, PatchLogError>(e),
        },
        spec_log_frames(data@) matches Ok(frames) && (forall|i: int| 0 <= i < frames.len() ==> !refuses(#[trigger] frames[i]))
            ==> res is Ok,
{
    proof {
        reveal(frames_from);
    }
    if data.len() == 0 {
        return Ok(Vec::new());
    }
    let version = data[0];
    if version != PATCH_LOG_VERSION {
        return Err(PatchLogError::UnsupportedVersion(version));
    }
    let mut patches: Vec<Patch> = Vec::new();
    let mut offset: usize = 1;
    let ghost mut seen: Seq<Seq<u8>> = Seq::empty();
    assert(seen + Seq::<Seq<u8>>::empty() =~= seen);
    while offset < data.len()
        invariant
            1 <= offset <= data.len(),
            data@.len() > 0 && data@[0] == PATCH_LOG_VERSION,
            patches@.len() == seen.len(),
            forall|i: int| 0 <= i < seen.len() ==> Patch::from_binary_outcome(seen[i], Ok(#[trigger] patches@[i])),
            frames_prefix(data@, 1, seen.len()) == Some((seen, offset as int)),
            frames_from(data@, 1) == match frames_from(data@, offset as int) {
                Err(e) => Err(e),
                Ok(rest) => Ok::<Seq<Seq<u8>>, PatchLogError>(seen + rest),
            },
        decreases data.len() - offset,
    {
        proof {
            reveal(frames_from);
        }
        let start = offset;
        if data.len() - offset < 4 {
            return Err(PatchLogError::TruncatedLengthHeader);
        }
        let len: usize = (data[offset] as usize) * 0x1000000 + (data[offset + 1] as usize) * 0x10000 + (
        data[offset + 2] as usize) * 0x100 + (data[offset + 3] as usize);
        assert(len == be32_at(data@, offset as int));
        offset = offset + 4;
        if len > MAX_PATCH_SIZE {
            return Err(PatchLogError::PatchTooLarge(len));
        }
        if len > data.len() - offset {
            return Err(PatchLogError::TruncatedPatchData);
        }
        let bin = vstd::slice::slice_subrange(data, offset, offset + len);
        proof {
            assert(frame_at(data@, start as int) == Ok::<(Seq<u8>, int), PatchLogError>(
                (bin@, (offset + len) as int),
            ));
            lemma_prefix_push(data@, 1, seen.len(), seen, start as int, bin@, (offset + len) as int);
        }
        let patch = match Patch::from_binary(bin) {
            Ok(p) => p,
            Err(e) => {
                proof {
                    let k = seen.len();
                    assert(frames_prefix(data@, 1, k + 1) == Some((seen.push(bin@), (offset + len) as int)));
                    assert(seen.push(bin@)[k as int] == bin@);
                    assert(refuses(bin@));
                    lemma_frames_step(data@, start as int);
                    if let Ok(all) = spec_log_frames(data@) {
                        let r = frames_from(data@, (offset + len) as int)->Ok_0;
                        assert(all == seen + (seq![bin@] + r));
                        assert(all[k as int] == bin@);
                    }
                }
                return Err(PatchLogError::PatchDecode(e));
            },
        };
        patches.push(patch);
        proof {
            let rest = frames_from(data@, (offset + len) as int);
            match rest {
                Ok(r) => {
                    assert(seen + (seq![bin@] + r) =~= seen.push(bin@) + r);
                },
                Err(_) => {},
            }
            seen = seen.push(bin@);
        }
        offset = offset + len;
    }
    assert(seen + Seq::<Seq<u8>>::empty() =~= seen);
    Ok(patches)
}

/// Every patch fits in a log.
pub open spec fn bins_fit(bins: Seq<Seq<u8>>) -> bool {
    forall|i: int| 0 <= i < bins.len() ==> (#[trigger] bins[i]).len() <= MAX_PATCH_SIZE
}

/// The four big-endian bytes of a number, wherever they stand, read back as
/// the number.
proof fn lemma_be32_in(prefix: Seq<u8>, n: u32, tail: Seq<u8>)
    ensures
        be32_at(prefix + (be32(n) + tail), prefix.len() as int) == n,
{
    let d = prefix + (be32(n) + tail);
    let off = prefix.len() as int;
    lemma_be32(n);
    assert(d[off] == be32(n)[0]);
    assert(d[off + 1] == be32(n)[1]);
    assert(d[off + 2] == be32(n)[2]);
    assert(d[off + 3] == be32(n)[3]);
}

/// One step of reading frames.
proof fn lemma_frames_step(data: Seq<u8>, off: int)
    requires
        0 <= off < data.len(),
    ensures
        frames_from(data, off) == match frame_at(data, off) {
            Err(e) => Err(e),
            Ok((f, next)) => match frames_from(data, next) {
                Err(e) => Err(e),
                Ok(r) => Ok::<Seq<Seq<u8>>, PatchLogError>(seq![f] + r),
            },
        },
{
    reveal_with_fuel(frames_from, 2);
}

/// A frame after any prefix reads as the patch's bytes.
proof fn lemma_frame_at_read(prefix: Seq<u8>, b: Seq<u8>, tail: Seq<u8>)
    requires
        b.len() <= MAX_PATCH_SIZE,
    ensures
        frame_at(prefix + frame(b) + tail, prefix.len() as int) == Ok::<(Seq<u8>, int), PatchLogError>(
            (b, (prefix.len() + 4 + b.len()) as int),
        ),
{
    let n = b.len() as u32;
    let data = prefix + frame(b) + tail;
    let off = prefix.len() as int;
    assert(data =~= prefix + (be32(n) + (b + tail)));
    lemma_be32_in(prefix, n, b + tail);
    assert(data.subrange(off + 4, off + 4 + b.len()) =~= b);
}

/// The frames after any prefix read back as the patches' bytes.
#[verifier::rlimit(60)]
#[verifier::spinoff_prover]
proof fn lemma_frames_read(prefix: Seq<u8>, bins: Seq<Seq<u8>>)
    requires
        bins_fit(bins),
    ensures
        frames_from(prefix + frames_bytes(bins), prefix.len() as int) == Ok::<Seq<Seq<u8>>, PatchLogError>(bins),
    decreases bins.len(),
{
    let data = prefix + frames_bytes(bins);
    if bins.len() == 0 {
        reveal(frames_from);
        assert(data =~= prefix);
        assert(bins =~= Seq::<Seq<u8>>::empty());
    } else {
        let b0 = bins[0];
        let rest = bins.skip(1);
        let n = b0.len() as u32;
        assert(bins_fit(rest)) by {
            assert forall|i: int| 0 <= i < rest.len() implies (#[trigger] rest[i]).len() <= MAX_PATCH_SIZE by {
                assert(rest[i] == bins[i + 1]);
            }
        }
        assert(b0.len() <= MAX_PATCH_SIZE);
        let p2 = prefix + frame(b0);
        lemma_frames_read(p2, rest);
        let off = prefix.len() as int;
        assert(data =~= p2 + frames_bytes(rest));
        lemma_frame_at_read(prefix, b0, frames_bytes(rest));
        assert(data =~= prefix + frame(b0) + frames_bytes(rest));
        lemma_frames_step(data, off);
        assert(seq![b0] + rest =~= bins);
    }
}

/// Law: the log of the patches' bytes holds those bytes, in order.
pub proof fn lemma_log_roundtrip(bins: Seq<Seq<u8>>)
    requires
        bins_fit(bins),
    ensures
        spec_log_frames(spec_serialize(bins)) == Ok::<Seq<Seq<u8>>, PatchLogError>(bins),
{
    if bins.len() > 0 {
        lemma_frames_read(seq![PATCH_LOG_VERSION], bins);
    } else {
        assert(bins =~= Seq::<Seq<u8>>::empty());
    }
}

/// A frame after frames that read to their end reads as one more.
proof fn lemma_frames_extend(d: Seq<u8>, off: int, fs: Seq<Seq<u8>>, b: Seq<u8>)
    requires
        0 <= off <= d.len(),
        frames_from(d, off) == Ok::<Seq<Seq<u8>>, PatchLogError>(fs),
        b.len() <= MAX_PATCH_SIZE,
    ensures
        frames_from(d + frame(b), off) == Ok::<Seq<Seq<u8>>, PatchLogError>(fs.push(b)),
    decreases d.len() - off,
{
    let d2 = d + frame(b);
    if off == d.len() {
        reveal(frames_from);
        assert(bins_fit(seq![b]));
        lemma_frames_read(d, seq![b]);
        assert(seq![b].skip(1) =~= Seq::<Seq<u8>>::empty());
        assert(frames_bytes(seq![b].skip(1)) == Seq::<u8>::empty());
        assert(frames_bytes(seq![b]) =~= frame(b));
        assert(fs =~= Seq::<Seq<u8>>::empty());
        assert(fs.push(b) =~= seq![b]);
    } else {
        let len = be32_at(d, off);
        let o = off + 4;
        lemma_frames_step(d, off);
        lemma_frames_step(d2, off);
        assert(be32_at(d2, off) == len);
        let r = frames_from(d, o + len)->Ok_0;
        lemma_frames_extend(d, o + len, r, b);
        assert(d2.subrange(o, o + len) =~= d.subrange(o, o + len));
        assert(seq![d.subrange(o, o + len)] + r.push(b) =~= (seq![d.subrange(o, o + len)] + r).push(b));
    }
}

/// Law: appending a patch to a log that reads to its end (or to no log)
/// gives a log that holds one more patch, its bytes last.
pub proof fn lemma_log_append(existing: Seq<u8>, b: Seq<u8>)
    requires
        spec_log_frames(existing) is Ok,
        b.len() <= MAX_PATCH_SIZE,
    ensures
        spec_log_frames(
            if existing.len() == 0 {
                seq![PATCH_LOG_VERSION] + frame(b)
            } else {
                existing + frame(b)
            },
        ) == Ok::<Seq<Seq<u8>>, PatchLogError>(spec_log_frames(existing)->Ok_0.push(b)),
{
    if existing.len() == 0 {
        lemma_log_roundtrip(seq![b]);
        assert(seq![b].skip(1) =~= Seq::<Seq<u8>>::empty());
        assert(frames_bytes(seq![b].skip(1)) == Seq::<u8>::empty());
        assert(frames_bytes(seq![b]) =~= frame(b));
        assert(Seq::<Seq<u8>>::empty().push(b) =~= seq![b]);
    } else {
        lemma_frames_extend(existing, 1, spec_log_frames(existing)->Ok_0, b);
        assert((existing + frame(b))[0] == existing[0]);
    }
}

/// Law: patches that hold what their bytes give, written to a log, read
/// back as patches that hold the same: each decoded frame (an outcome of
/// decoding it, as `deserialize_patches` gives) holds what the patch it came
/// from holds.
pub proof fn lemma_log_patches_roundtrip(ps: Seq<Patch>, qs: Seq<Patch>)
    requires
        forall|i: int| 0 <= i < ps.len() ==> Patch::from_binary_outcome((#[trigger] ps[i]).spec_bytes(), Ok(ps[i])),
        bins_fit(patch_bins(ps)),
        qs.len() == ps.len(),
        forall|i: int| 0 <= i < qs.len() ==> Patch::from_binary_outcome(
            spec_log_frames(spec_serialize(patch_bins(ps)))->Ok_0[i],
            Ok(#[trigger] qs[i]),
        ),
    ensures
        forall|i: int| 0 <= i < qs.len() ==> (#[trigger] qs[i]).same_as(ps[i]),
{
    lemma_log_roundtrip(patch_bins(ps));
    assert forall|i: int| 0 <= i < qs.len() implies (#[trigger] qs[i]).same_as(ps[i]) by {
        assert(patch_bins(ps)[i] == ps[i].spec_bytes());
        Patch::lemma_bytes_fix_patch(ps[i].spec_bytes(), qs[i], ps[i]);
    }
}


/// Law: no frame of a log of patches decoded from their own bytes is
/// refused, and the log holds those bytes; so reading the log back gives
/// patches (see `deserialize_patches`), each the same as the one written
/// (`lemma_log_patches_roundtrip`).
pub proof fn lemma_log_patches_read(ps: Seq<Patch>)
    requires
        forall|i: int| 0 <= i < ps.len() ==> Patch::from_binary_outcome((#[trigger] ps[i]).spec_bytes(), Ok(ps[i])),
        bins_fit(patch_bins(ps)),
    ensures
        spec_log_frames(spec_serialize(patch_bins(ps))) == Ok::<Seq<Seq<u8>>, PatchLogError>(patch_bins(ps)),
        forall|i: int| 0 <= i < ps.len() ==> !refuses(#[trigger] patch_bins(ps)[i]),
{
    lemma_log_roundtrip(patch_bins(ps));
    assert forall|i: int| 0 <= i < ps.len() implies !refuses(#[trigger] patch_bins(ps)[i]) by {
        assert(patch_bins(ps)[i] == ps[i].spec_bytes());
    }
}

} // verus!
