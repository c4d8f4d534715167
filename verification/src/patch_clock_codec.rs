//! Standalone codecs for clock tables and relative timestamps.

use vstd::prelude::*;
use crate::crdt_binary::{
    read_b1vu56, read_vu57, write_b1vu56, write_vu57, LogicalClockBase, vu57_bytes, b1vu56_bytes,
    spec_read_vu57, spec_read_b1vu56, spec_read_clock_entries, lemma_vu57_roundtrip,
    lemma_b1vu56_roundtrip,
};
use crate::patch::Timestamp;

verus! {

/// Failures of the clock-table and relative-timestamp decoders.
#[derive(Debug, Clone, Copy, PartialEq, Eq, Structural)]
pub enum PatchClockCodecError {
    InvalidClockTable,
    InvalidRelativeId,
}

impl PatchClockCodecError {
    /// Human-readable description of the error.
    pub fn message(&self) -> (res: &'static str)
        ensures
            res@ == match self {
                PatchClockCodecError::InvalidClockTable => "invalid clock table binary"@,
                PatchClockCodecError::InvalidRelativeId => "invalid relative timestamp"@,
            },
    {
        match self {
            PatchClockCodecError::InvalidClockTable => "invalid clock table binary",
            PatchClockCodecError::InvalidRelativeId => "invalid relative timestamp",
        }
    }
}

/// Bytes of the clock entries, each as a `vu57` session id and `vu57` time.
pub open spec fn clock_entries_bytes(t: Seq<LogicalClockBase>) -> Seq<u8>
    decreases t.len(),
{
    if t.len() == 0 {
        Seq::empty()
    } else {
        vu57_bytes(t[0].sid) + vu57_bytes(t[0].time) + clock_entries_bytes(t.drop_first())
    }
}

/// Bytes of an encoded clock table: the entry count, then the entries.
pub open spec fn clock_table_bytes(t: Seq<LogicalClockBase>) -> Seq<u8> {
    vu57_bytes(t.len() as u64) + clock_entries_bytes(t)
}

/// Result of decoding a standalone clock table: the count must be nonzero and
/// the entries must fill the input exactly.
pub open spec fn spec_decode_clock_table(data: Seq<u8>) -> Option<Seq<LogicalClockBase>> {
    let (len, p) = spec_read_vu57(data, 0);
    match len {
        None => None,
        Some(len) => if len as usize == 0 {
            None
        } else {
            match spec_read_clock_entries(data, p, (len as usize) as nat) {
                Some((t, end)) => if end == data.len() {
                    Some(t)
                } else {
                    None
                },
                None => None,
            }
        },
    }
}

/// Bytes of a relative timestamp: one byte when the session index fits three
/// bits and the time difference four, else the wide `b1vu56` + `vu57` form.
pub open spec fn relative_timestamp_bytes(session_index: u64, time_diff: u64) -> Seq<u8> {
    if session_index <= 7 && time_diff <= 15 {
        seq![(((session_index as u8) << 4u8) | (time_diff as u8)) as u8]
    } else {
        b1vu56_bytes(1, session_index) + vu57_bytes(time_diff)
    }
}

/// Result of decoding a relative timestamp.
pub open spec fn spec_decode_relative_timestamp(data: Seq<u8>) -> Option<(u64, u64)> {
    if data.len() == 0 {
        None
    } else if data[0] <= 0x7f {
        Some(((data[0] >> 4u8) as u64, (data[0] & 0x0fu8) as u64))
    } else {
        let (r, p) = spec_read_b1vu56(data, 0);
        match r {
            None => None,
            Some((flag, session_index)) => if flag != 1 {
                None
            } else {
                let (t, p2) = spec_read_vu57(data, p);
                match t {
                    None => None,
                    Some(time_diff) => if p2 != data.len() {
                        None
                    } else {
                        Some((session_index, time_diff))
                    },
                }
            },
        }
    }
}

/// Both numbers of the entry are below 2^57.
pub open spec fn fits_vu57(c: LogicalClockBase) -> bool {
    c.sid >> 57u64 == 0 && c.time >> 57u64 == 0
}

/// Every entry's numbers are below 2^57.
pub open spec fn entries_fit_vu57(t: Seq<LogicalClockBase>) -> bool {
    forall|i: int| 0 <= i < t.len() ==> #[trigger] fits_vu57(t[i])
}

proof fn lemma_clock_entries_bytes_push(t: Seq<LogicalClockBase>, x: LogicalClockBase)
    ensures
        clock_entries_bytes(t.push(x)) == clock_entries_bytes(t) + vu57_bytes(x.sid) + vu57_bytes(
            x.time,
        ),
    decreases t.len(),
{
    if t.len() == 0 {
        assert(t.push(x).drop_first() =~= Seq::<LogicalClockBase>::empty());
        assert(t.push(x)[0] == x);
        assert(clock_entries_bytes(Seq::<LogicalClockBase>::empty()) == Seq::<u8>::empty());
        assert(clock_entries_bytes(t.push(x)) =~= clock_entries_bytes(t) + vu57_bytes(x.sid)
            + vu57_bytes(x.time));
    } else {
        assert(t.push(x).drop_first() =~= t.drop_first().push(x));
        lemma_clock_entries_bytes_push(t.drop_first(), x);
        assert(clock_entries_bytes(t.push(x)) =~= clock_entries_bytes(t) + vu57_bytes(x.sid)
            + vu57_bytes(x.time));
    }
}

proof fn lemma_clock_entries_roundtrip(t: Seq<LogicalClockBase>, pre: Seq<u8>, suf: Seq<u8>)
    requires
        entries_fit_vu57(t),
    ensures
        spec_read_clock_entries(pre + clock_entries_bytes(t) + suf, pre.len() as int, t.len())
            == Some((t, (pre.len() + clock_entries_bytes(t).len()) as int)),
    decreases t.len(),
{
    if t.len() > 0 {
        let x = t[0];
        let rest = t.drop_first();
        assert(fits_vu57(t[0]));
        let data = pre + clock_entries_bytes(t) + suf;
        let tail = vu57_bytes(x.time) + clock_entries_bytes(rest) + suf;
        assert(data =~= pre + vu57_bytes(x.sid) + tail);
        lemma_vu57_roundtrip(x.sid, pre, tail);
        let pre1 = pre + vu57_bytes(x.sid);
        let tail2 = clock_entries_bytes(rest) + suf;
        assert(data =~= pre1 + vu57_bytes(x.time) + tail2);
        lemma_vu57_roundtrip(x.time, pre1, tail2);
        let pre2 = pre1 + vu57_bytes(x.time);
        assert(data =~= pre2 + clock_entries_bytes(rest) + suf);
        assert forall|i: int| 0 <= i < rest.len() implies #[trigger] fits_vu57(rest[i]) by {
            assert(rest[i] == t[i + 1]);
        }
        lemma_clock_entries_roundtrip(rest, pre2, suf);
        assert(seq![x] + rest =~= t);
    }
}

/// Decoding an encoded clock table gives back the table, for every nonempty
/// table whose count, session ids and times are below 2^57.
pub proof fn lemma_clock_table_roundtrip(t: Seq<LogicalClockBase>)
    requires
        0 < t.len(),
        (t.len() as u64) >> 57u64 == 0,
        t.len() <= usize::MAX,
        entries_fit_vu57(t),
    ensures
        spec_decode_clock_table(clock_table_bytes(t)) == Some(t),
{
    let data = clock_table_bytes(t);
    let e: Seq<u8> = Seq::empty();
    assert(data =~= e + vu57_bytes(t.len() as u64) + clock_entries_bytes(t));
    lemma_vu57_roundtrip(t.len() as u64, e, clock_entries_bytes(t));
    let pre = e + vu57_bytes(t.len() as u64);
    assert(data =~= pre + clock_entries_bytes(t) + e);
    lemma_clock_entries_roundtrip(t, pre, e);
}

/// Decoding an encoded relative timestamp gives back the session index and the
/// time difference, for every index below 2^56 and difference below 2^57.
pub proof fn lemma_relative_timestamp_roundtrip(session_index: u64, time_diff: u64)
    requires
        session_index >> 56u64 == 0,
        time_diff >> 57u64 == 0,
    ensures
        spec_decode_relative_timestamp(relative_timestamp_bytes(session_index, time_diff)) == Some(
            (session_index, time_diff),
        ),
{
    let data = relative_timestamp_bytes(session_index, time_diff);
    if session_index <= 7 && time_diff <= 15 {
        assert(session_index <= 7 && time_diff <= 15 ==> (((session_index as u8) << 4u8) | (
        time_diff as u8)) as u8 <= 0x7f && (((((session_index as u8) << 4u8) | (time_diff as u8))
            as u8) >> 4u8) as u64 == session_index && (((((session_index as u8) << 4u8) | (
        time_diff as u8)) as u8) & 0x0fu8) as u64 == time_diff) by (bit_vector);
    } else {
        let e: Seq<u8> = Seq::empty();
        let w = b1vu56_bytes(1, session_index);
        assert(data =~= e + w + vu57_bytes(time_diff));
        lemma_b1vu56_roundtrip(1, session_index, e, vu57_bytes(time_diff));
        assert(data =~= (e + w) + vu57_bytes(time_diff) + e);
        lemma_vu57_roundtrip(time_diff, e + w, e);
        let first = crate::crdt_binary::b1vu56_first(1, session_index);
        assert(first >= 0x80u8 && (first | 0x40u8) as u8 >= 0x80u8) by {
            assert((((1u8 & 1u8) << 7u8) | ((session_index & 0x3f) as u8)) as u8 >= 0x80u8
                && ((((((1u8 & 1u8) << 7u8) | ((session_index & 0x3f) as u8)) as u8) | 0x40u8)
                as u8) >= 0x80u8) by (bit_vector);
        }
        assert(1u8 & 1u8 == 1u8) by (bit_vector);
    }
}

/// Encodes a clock table: its length, then each session id and time.
pub fn encode_clock_table(clock_table: &[LogicalClockBase]) -> (res: Vec<u8>)
    ensures
        res@ == clock_table_bytes(clock_table@),
{
    let mut out: Vec<u8> = Vec::new();
    write_vu57(&mut out, clock_table.len() as u64);
    let mut i: usize = 0;
    while i < clock_table.len()
        invariant
            i <= clock_table.len(),
            out@ == vu57_bytes(clock_table@.len() as u64) + clock_entries_bytes(
                clock_table@.take(i as int),
            ),
        decreases clock_table.len() - i,
    {
        let c = clock_table[i];
        write_vu57(&mut out, c.sid);
        write_vu57(&mut out, c.time);
        proof {
            assert(clock_table@.take(i + 1) =~= clock_table@.take(i as int).push(c));
            lemma_clock_entries_bytes_push(clock_table@.take(i as int), c);
        }
        i = i + 1;
    }
    assert(clock_table@.take(i as int) =~= clock_table@);
    out
}

/// Decodes a standalone clock table; the whole input must be consumed.
pub fn decode_clock_table(data: &[u8]) -> (res: Result<Vec<LogicalClockBase>, PatchClockCodecError>)
    ensures
        match res {
            Ok(t) => spec_decode_clock_table(data@) == Some(t@),
            Err(e) => spec_decode_clock_table(data@) is None && e == PatchClockCodecError::InvalidClockTable,
        },
{
    let mut pos: usize = 0;
    let len = match read_vu57(data, &mut pos) {
        Some(l) => l as usize,
        None => return Err(PatchClockCodecError::InvalidClockTable),
    };
    if len == 0 {
        return Err(PatchClockCodecError::InvalidClockTable);
    }
    let mut out: Vec<LogicalClockBase> = Vec::new();
    let mut k: usize = 0;
    while k < len
        invariant
            k <= len,
            len > 0,
            spec_decode_clock_table(data@) == match spec_read_clock_entries(
                data@,
                pos as int,
                (len - k) as nat,
            ) {
                Some((rest, end)) => if end == data@.len() {
                    Some(out@ + rest)
                } else {
                    None
                },
                None => None::<Seq<LogicalClockBase>>,
            },
        decreases len - k,
    {
        let sid = match read_vu57(data, &mut pos) {
            Some(v) => v,
            None => return Err(PatchClockCodecError::InvalidClockTable),
        };
        let time = match read_vu57(data, &mut pos) {
            Some(v) => v,
            None => return Err(PatchClockCodecError::InvalidClockTable),
        };
        let ghost before = out@;
        out.push(LogicalClockBase { sid, time });
        proof {
            match spec_read_clock_entries(data@, pos as int, (len - k - 1) as nat) {
                Some((rest, _)) => {
                    assert(before + (seq![LogicalClockBase { sid, time }] + rest) =~= out@ + rest);
                },
                None => {},
            }
        }
        k = k + 1;
    }
    if pos != data.len() {
        return Err(PatchClockCodecError::InvalidClockTable);
    }
    assert(out@ + Seq::<LogicalClockBase>::empty() =~= out@);
    Ok(out)
}

/// Encodes a (session index, time difference) pair relative to a clock table.
pub fn encode_relative_timestamp(session_index: u64, time_diff: u64) -> (res: Vec<u8>)
    ensures
        res@ == relative_timestamp_bytes(session_index, time_diff),
{
    let mut out: Vec<u8> = Vec::new();
    if session_index <= 7 && time_diff <= 15 {
        out.push(((session_index as u8) << 4) | (time_diff as u8));
        assert(out@ =~= relative_timestamp_bytes(session_index, time_diff));
    } else {
        write_b1vu56(&mut out, 1, session_index);
        write_vu57(&mut out, time_diff);
        assert(out@ =~= relative_timestamp_bytes(session_index, time_diff));
    }
    out
}

/// Decodes a relative timestamp into (session index, time difference).
pub fn decode_relative_timestamp(data: &[u8]) -> (res: Result<(u64, u64), PatchClockCodecError>)
    ensures
        match res {
            Ok(v) => spec_decode_relative_timestamp(data@) == Some(v),
            Err(e) => spec_decode_relative_timestamp(data@) is None && e == PatchClockCodecError::InvalidRelativeId,
        },
{
    if data.len() == 0 {
        return Err(PatchClockCodecError::InvalidRelativeId);
    }
    let first = data[0];
    if first <= 0x7f {
        return Ok(((first >> 4) as u64, (first & 0x0f) as u64));
    }
    let mut pos: usize = 0;
    let (flag, session_index) = match read_b1vu56(data, &mut pos) {
        Some(v) => v,
        None => return Err(PatchClockCodecError::InvalidRelativeId),
    };
    if flag != 1 {
        return Err(PatchClockCodecError::InvalidRelativeId);
    }
    let time_diff = match read_vu57(data, &mut pos) {
        Some(v) => v,
        None => return Err(PatchClockCodecError::InvalidRelativeId),
    };
    if pos != data.len() {
        return Err(PatchClockCodecError::InvalidRelativeId);
    }
    Ok((session_index, time_diff))
}

/// The timestamp a (session index, time difference) pair names: index 0 is the
/// system session with the difference as its time; index `k` counts back from
/// the time of the `k`-th table entry.
pub open spec fn spec_decode_with_clock_table(
    clock_table: Seq<LogicalClockBase>,
    session_index: u64,
    time_diff: u64,
) -> Option<Timestamp> {
    if session_index == 0 {
        Some(Timestamp { sid: 0, time: time_diff })
    } else {
        let k = (session_index as usize) - 1;
        if k >= clock_table.len() {
            None
        } else if time_diff > clock_table[k].time {
            None
        } else {
            Some(Timestamp { sid: clock_table[k].sid, time: (clock_table[k].time - time_diff) as u64 })
        }
    }
}

/// Resolves a relative timestamp against a clock table.
pub fn decode_with_clock_table(
    clock_table: &[LogicalClockBase],
    session_index: u64,
    time_diff: u64,
) -> (res: Result<Timestamp, PatchClockCodecError>)
    requires
        session_index == 0 || session_index as usize != 0,
    ensures
        match res {
            Ok(ts) => spec_decode_with_clock_table(clock_table@, session_index, time_diff) == Some(ts),
            Err(e) => spec_decode_with_clock_table(clock_table@, session_index, time_diff) is None
                && e == PatchClockCodecError::InvalidRelativeId,
        },
{
    if session_index == 0 {
        return Ok(Timestamp { sid: 0, time: time_diff });
    }
    let k = session_index as usize - 1;
    if k >= clock_table.len() {
        return Err(PatchClockCodecError::InvalidRelativeId);
    }
    let base = clock_table[k];
    if time_diff > base.time {
        return Err(PatchClockCodecError::InvalidRelativeId);
    }
    Ok(Timestamp { sid: base.sid, time: base.time - time_diff })
}

} // verus!
