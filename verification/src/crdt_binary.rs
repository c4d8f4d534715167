//! Variable-length integer codecs (`vu57`, `b1vu56`) and the logical clock
//! table that trails a logical-clock model binary.

use vstd::prelude::*;

verus! {

/// One entry of a logical clock table: a session id and its latest time.
#[derive(Debug, Clone, Copy, PartialEq, Eq, Structural)]
pub struct LogicalClockBase {
    pub sid: u64,
    pub time: u64,
}

// ---------------------------------------------------------------------------
// Wire format, as mathematical sequences of bytes
// ---------------------------------------------------------------------------

/// The continuation part of a varint: up to `n - i` groups of seven bits, each
/// flagged by the high bit when more follow, and a full closing byte when the
/// value is still not exhausted after `n` groups.
pub open spec fn varint_tail(r: u64, i: nat, n: nat) -> Seq<u8>
    decreases n - i,
{
    if i >= n {
        seq![(r & 0xff) as u8]
    } else if r >> 7u64 == 0 {
        seq![(r & 0x7f) as u8]
    } else {
        seq![(((r & 0x7f) as u8) | 0x80u8) as u8] + varint_tail(r >> 7u64, i + 1, n)
    }
}

/// Bytes written for `v` in the `vu57` format.
pub open spec fn vu57_bytes(v: u64) -> Seq<u8> {
    varint_tail(v, 0, 7)
}

/// First byte of the `b1vu56` format: flag in bit 7, low six value bits.
pub open spec fn b1vu56_first(flag: u8, v: u64) -> u8 {
    (((flag & 1u8) << 7u8) | ((v & 0x3f) as u8)) as u8
}

/// Bytes written for `(flag, v)` in the `b1vu56` format.
pub open spec fn b1vu56_bytes(flag: u8, v: u64) -> Seq<u8> {
    if v >> 6u64 == 0 {
        seq![b1vu56_first(flag, v)]
    } else {
        seq![(b1vu56_first(flag, v) | 0x40u8) as u8] + varint_tail(v >> 6u64, 0, 6)
    }
}

/// Reading the continuation part of a varint at `pos`: the value (if the
/// input did not end first) and the position after the last byte read.
pub open spec fn varint_tail_read(
    data: Seq<u8>,
    pos: int,
    i: nat,
    n: nat,
    shift: u64,
    acc: u64,
) -> (Option<u64>, int)
    decreases n + 1 - i,
{
    if pos < 0 || pos >= data.len() || i > n {
        (None, pos)
    } else {
        let b = data[pos];
        if i < n {
            let acc2 = acc | (((b & 0x7fu8) as u64) << shift);
            if b & 0x80u8 == 0 {
                (Some(acc2), pos + 1)
            } else {
                varint_tail_read(data, pos + 1, i + 1, n, (shift + 7) as u64, acc2)
            }
        } else {
            (Some(acc | ((b as u64) << shift)), pos + 1)
        }
    }
}

/// Reading a `vu57` at `pos`: the value, or `None` when the input ends first,
/// and the position reached.
pub open spec fn spec_read_vu57(data: Seq<u8>, pos: int) -> (Option<u64>, int) {
    varint_tail_read(data, pos, 0, 7, 0, 0)
}

/// Reading a `b1vu56` at `pos`: the flag bit and the value, or `None` when the
/// input ends first, and the position reached.
pub open spec fn spec_read_b1vu56(data: Seq<u8>, pos: int) -> (Option<(u8, u64)>, int) {
    if pos < 0 || pos >= data.len() {
        (None, pos)
    } else {
        let first = data[pos];
        let flag = ((first >> 7u8) & 1u8) as u8;
        let low = (first & 0x3fu8) as u64;
        if first & 0x40u8 == 0 {
            (Some((flag, low)), pos + 1)
        } else {
            let (r, p) = varint_tail_read(data, pos + 1, 0, 6, 6, low);
            (
                match r {
                    Some(v) => Some((flag, v)),
                    None => None,
                },
                p,
            )
        }
    }
}

/// A varint read stays within the input.
pub proof fn lemma_tail_read_pos(data: Seq<u8>, pos: int, i: nat, n: nat, shift: u64, acc: u64)
    requires
        0 <= pos <= data.len(),
    ensures
        pos <= varint_tail_read(data, pos, i, n, shift, acc).1 <= data.len(),
    decreases n + 1 - i,
{
    if pos < data.len() && i < n && data[pos] & 0x80u8 != 0 {
        lemma_tail_read_pos(
            data,
            pos + 1,
            i + 1,
            n,
            (shift + 7) as u64,
            acc | (((data[pos] & 0x7fu8) as u64) << shift),
        );
    }
}

/// A `vu57` read stays within the input.
pub proof fn lemma_read_vu57_pos(data: Seq<u8>, pos: int)
    requires
        0 <= pos <= data.len(),
    ensures
        pos <= spec_read_vu57(data, pos).1 <= data.len(),
{
    lemma_tail_read_pos(data, pos, 0, 7, 0, 0);
}

/// A `b1vu56` read stays within the input.
pub proof fn lemma_read_b1vu56_pos(data: Seq<u8>, pos: int)
    requires
        0 <= pos <= data.len(),
    ensures
        pos <= spec_read_b1vu56(data, pos).1 <= data.len(),
{
    if pos < data.len() && data[pos] & 0x40u8 != 0 {
        lemma_tail_read_pos(data, pos + 1, 0, 6, 6, (data[pos] & 0x3fu8) as u64);
    }
}

/// Big-endian value of the four bytes at the start of `data`.
pub open spec fn be_u32(data: Seq<u8>) -> u32 {
    ((data[0] as u32) << 24u32) | ((data[1] as u32) << 16u32) | ((data[2] as u32) << 8u32) | (
    data[3] as u32)
}

/// Reading `k` clock entries (a `vu57` session id then a `vu57` time each):
/// the entries and the position after them.
pub open spec fn spec_read_clock_entries(data: Seq<u8>, pos: int, k: nat) -> Option<
    (Seq<LogicalClockBase>, int),
>
    decreases k,
{
    if k == 0 {
        Some((Seq::empty(), pos))
    } else {
        let (sid, p1) = spec_read_vu57(data, pos);
        let (time, p2) = spec_read_vu57(data, p1);
        match (sid, time) {
            (Some(sid), Some(time)) => match spec_read_clock_entries(data, p2, (k - 1) as nat) {
                Some((rest, end)) => Some((seq![LogicalClockBase { sid, time }] + rest, end)),
                None => None,
            },
            _ => None,
        }
    }
}

/// The clock table of a logical-clock model binary: the four-byte offset of the
/// table past the header, and the table's entries.
pub open spec fn spec_parse_logical_clock_table(data: Seq<u8>) -> Option<
    (usize, Seq<LogicalClockBase>),
> {
    if data.len() == 0 || data[0] & 0x80u8 != 0 || data.len() < 4 {
        None
    } else {
        let offset = be_u32(data) as usize;
        if 4 + offset > usize::MAX {
            None
        } else {
            let (len, p) = spec_read_vu57(data, 4 + offset);
            match len {
                None => None,
                Some(len) => if len as usize == 0 {
                    None
                } else {
                    match spec_read_clock_entries(data, p, (len as usize) as nat) {
                        Some((t, _)) => Some((offset, t)),
                        None => None,
                    }
                },
            }
        }
    }
}

// ---------------------------------------------------------------------------
// Bit-level facts
// ---------------------------------------------------------------------------

proof fn lemma_bv_last_group(v: u64, s: u64)
    by (bit_vector)
    requires
        s <= 49,
        (v >> s) >> 7u64 == 0,
    ensures
        (v & ((1u64 << s) - 1u64) as u64) | ((((((v >> s) & 0x7f) as u8) & 0x7fu8) as u64) << s) == v,
        (((v >> s) & 0x7f) as u8) & 0x80u8 == 0,
{
}

proof fn lemma_bv_cont_group(v: u64, s: u64)
    by (bit_vector)
    requires
        s <= 42,
    ensures
        ((((((v >> s) & 0x7f) as u8) | 0x80u8) as u8) & 0x80u8) != 0,
        (v & ((1u64 << s) - 1u64) as u64) | (((((((v >> s) & 0x7f) as u8) | 0x80u8) as u8 & 0x7fu8) as u64)
            << s) == v & ((1u64 << ((s + 7) as u64)) - 1u64) as u64,
        (v >> s) >> 7u64 == v >> (s + 7) as u64,
{
}

proof fn lemma_bv_final_byte(v: u64, s: u64)
    by (bit_vector)
    requires
        s <= 49,
        v >> (s + 8) as u64 == 0,
    ensures
        (v & ((1u64 << s) - 1u64) as u64) | ((((v >> s) & 0xff) as u8 as u64) << s) == v,
{
}

proof fn lemma_bv_first_byte(flag: u8, v: u64)
    ensures
        ((b1vu56_first(flag, v) >> 7u8) & 1u8) == flag & 1u8,
        ((b1vu56_first(flag, v) | 0x40u8) as u8 >> 7u8) & 1u8 == flag & 1u8,
        (b1vu56_first(flag, v) & 0x3fu8) as u64 == v & ((1u64 << 6u64) - 1u64) as u64,
        ((b1vu56_first(flag, v) | 0x40u8) as u8 & 0x3fu8) as u64 == v & ((1u64 << 6u64) - 1u64) as u64,
        (b1vu56_first(flag, v) | 0x40u8) as u8 & 0x40u8 != 0,
        v >> 6u64 == 0 ==> b1vu56_first(flag, v) & 0x40u8 == 0,
        v >> 6u64 == 0 ==> v & ((1u64 << 6u64) - 1u64) as u64 == v,
        v & ((1u64 << 0u64) - 1u64) as u64 == 0,
{
    assert(((b1vu56_first(flag, v) >> 7u8) & 1u8) == flag & 1u8) by (bit_vector);
    assert(((((((flag & 1u8) << 7u8) | ((v & 0x3f) as u8)) as u8) | 0x40u8) as u8 >> 7u8) & 1u8
        == flag & 1u8) by (bit_vector);
    assert(((((flag & 1u8) << 7u8) | ((v & 0x3f) as u8)) as u8 & 0x3fu8) as u64 == v & ((1u64 << 6u64) - 1u64) as u64) by (bit_vector);
    assert(((((((flag & 1u8) << 7u8) | ((v & 0x3f) as u8)) as u8) | 0x40u8) as u8 & 0x3fu8) as u64
        == v & ((1u64 << 6u64) - 1u64) as u64) by (bit_vector);
    assert(((((((flag & 1u8) << 7u8) | ((v & 0x3f) as u8)) as u8) | 0x40u8) as u8 & 0x40u8) != 0)
        by (bit_vector);
    assert(v >> 6u64 == 0 ==> ((((flag & 1u8) << 7u8) | ((v & 0x3f) as u8)) as u8) & 0x40u8 == 0)
        by (bit_vector);
    assert(v >> 6u64 == 0 ==> v & ((1u64 << 6u64) - 1u64) as u64 == v) by (bit_vector);
    assert(v & ((1u64 << 0u64) - 1u64) as u64 == 0) by (bit_vector);
}

/// Reading back the continuation part written for `v` from position `i` on
/// yields `v`, whatever precedes or follows it.
proof fn lemma_varint_tail_roundtrip(
    v: u64,
    base: nat,
    i: nat,
    n: nat,
    pre: Seq<u8>,
    suf: Seq<u8>,
)
    requires
        i <= n,
        base + 7 * n <= 49,
        v >> ((base + 7 * n + 8) as u64) == 0,
    ensures
        ({
            let s = (base + 7 * i) as u64;
            let enc = varint_tail(v >> s, i, n);
            varint_tail_read(pre + enc + suf, pre.len() as int, i, n, s, v & ((1u64 << s) - 1u64) as u64) == (
            Some(v), (pre.len() + enc.len()) as int)
        }),
    decreases n - i,
{
    let s = (base + 7 * i) as u64;
    let r = v >> s;
    let enc = varint_tail(r, i, n);
    let data = pre + enc + suf;
    assert(data[pre.len() as int] == enc[0]);
    if i >= n {
        assert(s == (base + 7 * n) as u64);
        lemma_bv_final_byte(v, s);
    } else if r >> 7u64 == 0 {
        lemma_bv_last_group(v, s);
    } else {
        lemma_bv_cont_group(v, s);
        let b = (((r & 0x7f) as u8) | 0x80u8) as u8;
        let s2 = (base + 7 * (i + 1)) as u64;
        assert(s2 == (s + 7) as u64);
        let enc2 = varint_tail(v >> s2, i + 1, n);
        assert(enc == seq![b] + enc2);
        let pre2 = pre + seq![b];
        assert(data =~= pre2 + enc2 + suf);
        lemma_varint_tail_roundtrip(v, base, i + 1, n, pre2, suf);
    }
}

/// Every value below 2^57 survives a `vu57` write and read, whatever bytes
/// stand before and after it.
pub proof fn lemma_vu57_roundtrip(v: u64, pre: Seq<u8>, suf: Seq<u8>)
    requires
        v >> 57u64 == 0,
    ensures
        spec_read_vu57(pre + vu57_bytes(v) + suf, pre.len() as int) == (
        Some(v), (pre.len() + vu57_bytes(v).len()) as int),
{
    lemma_bv_first_byte(0, v);
    assert(v >> 0u64 == v) by (bit_vector);
    lemma_varint_tail_roundtrip(v, 0, 0, 7, pre, suf);
}

/// Every value below 2^56, with the low bit of the flag, survives a `b1vu56`
/// write and read, whatever bytes stand before and after it.
pub proof fn lemma_b1vu56_roundtrip(flag: u8, v: u64, pre: Seq<u8>, suf: Seq<u8>)
    requires
        v >> 56u64 == 0,
    ensures
        spec_read_b1vu56(pre + b1vu56_bytes(flag, v) + suf, pre.len() as int) == (
        Some((flag & 1u8, v)), (pre.len() + b1vu56_bytes(flag, v).len()) as int),
{
    let enc = b1vu56_bytes(flag, v);
    let data = pre + enc + suf;
    lemma_bv_first_byte(flag, v);
    assert(data[pre.len() as int] == enc[0]);
    if v >> 6u64 != 0 {
        let first = (b1vu56_first(flag, v) | 0x40u8) as u8;
        let tail = varint_tail(v >> 6u64, 0, 6);
        let pre2 = pre + seq![first];
        assert(data =~= pre2 + tail + suf);
        lemma_varint_tail_roundtrip(v, 6, 0, 6, pre2, suf);
    }
}

// ---------------------------------------------------------------------------
// Executable codecs
// ---------------------------------------------------------------------------

/// Appends `value` in the `vu57` format (seven-bit groups, then one full byte).
pub fn write_vu57(out: &mut Vec<u8>, value: u64)
    ensures
        final(out)@ == old(out)@ + vu57_bytes(value),
{
    let ghost start = out@;
    let mut rem = value;
    let mut i: usize = 0;
    while i < 7
        invariant
            i <= 7,
            start == old(out)@,
            start + vu57_bytes(value) == out@ + varint_tail(rem, i as nat, 7),
        decreases 7 - i,
    {
        let b = (rem & 0x7f) as u8;
        let rest = rem >> 7;
        if rest == 0 {
            out.push(b);
            assert(out@ =~= start + vu57_bytes(value));
            return;
        }
        let b2 = b | 0x80;
        out.push(b2);
        rem = rest;
        i = i + 1;
    }
    out.push((rem & 0xff) as u8);
    assert(out@ =~= start + vu57_bytes(value));
}

/// Reads a `vu57` at `*pos`, advancing `*pos` past each byte read.
pub fn read_vu57(data: &[u8], pos: &mut usize) -> (res: Option<u64>)
    ensures
        (res, *final(pos) as int) == spec_read_vu57(data@, *old(pos) as int),
{
    let mut result: u64 = 0;
    let mut shift: u32 = 0;
    let mut i: usize = 0;
    while i < 7
        invariant
            i <= 7,
            shift == 7 * i,
            spec_read_vu57(data@, *old(pos) as int) == varint_tail_read(
                data@,
                *pos as int,
                i as nat,
                7,
                shift as u64,
                result,
            ),
        decreases 7 - i,
    {
        if *pos >= data.len() {
            return None;
        }
        let b = data[*pos];
        *pos = *pos + 1;
        let part = (b & 0x7f) as u64;
        result = result | (part << shift);
        if b & 0x80 == 0 {
            return Some(result);
        }
        shift = shift + 7;
        i = i + 1;
    }
    if *pos >= data.len() {
        return None;
    }
    let b = data[*pos];
    *pos = *pos + 1;
    result = result | ((b as u64) << 49u32);
    Some(result)
}

/// Appends the flag bit and `value` in the `b1vu56` format.
pub fn write_b1vu56(out: &mut Vec<u8>, flag: u8, value: u64)
    ensures
        final(out)@ == old(out)@ + b1vu56_bytes(flag, value),
{
    let ghost start = out@;
    let low6 = (value & 0x3f) as u8;
    let mut rem = value >> 6;
    let first = ((flag & 1) << 7) | low6;
    if rem == 0 {
        out.push(first);
        assert(out@ =~= start + b1vu56_bytes(flag, value));
        return;
    }
    out.push(first | 0x40);
    let ghost head = out@;
    assert(first == b1vu56_first(flag, value));
    assert(start + b1vu56_bytes(flag, value) == head + varint_tail(value >> 6u64, 0, 6));
    let mut i: usize = 0;
    while i < 6
        invariant
            i <= 6,
            start == old(out)@,
            value >> 6u64 != 0,
            start + b1vu56_bytes(flag, value) == head + varint_tail(value >> 6u64, 0, 6),
            head + varint_tail(value >> 6u64, 0, 6) == out@ + varint_tail(rem, i as nat, 6),
        decreases 6 - i,
    {
        let b = (rem & 0x7f) as u8;
        let rest = rem >> 7;
        if rest == 0 {
            out.push(b);
            assert(out@ =~= start + b1vu56_bytes(flag, value));
            return;
        }
        out.push(b | 0x80);
        rem = rest;
        i = i + 1;
    }
    out.push((rem & 0xff) as u8);
    assert(out@ =~= start + b1vu56_bytes(flag, value));
}

/// Reads a `b1vu56` at `*pos`, advancing `*pos` past each byte read.
pub fn read_b1vu56(data: &[u8], pos: &mut usize) -> (res: Option<(u8, u64)>)
    ensures
        (res, *final(pos) as int) == spec_read_b1vu56(data@, *old(pos) as int),
{
    if *pos >= data.len() {
        return None;
    }
    let first = data[*pos];
    *pos = *pos + 1;
    let flag = (first >> 7) & 1;
    let mut result: u64 = (first & 0x3f) as u64;
    if first & 0x40 == 0 {
        return Some((flag, result));
    }
    let mut shift: u32 = 6;
    let mut i: usize = 0;
    while i < 6
        invariant
            i <= 6,
            shift == 6 + 7 * i,
            *old(pos) < data@.len(),
            first == data@[*old(pos) as int],
            flag == ((first >> 7u8) & 1u8),
            first & 0x40u8 != 0,
            varint_tail_read(data@, *old(pos) + 1, 0, 6, 6, (first & 0x3fu8) as u64)
                == varint_tail_read(data@, *pos as int, i as nat, 6, shift as u64, result),
        decreases 6 - i,
    {
        if *pos >= data.len() {
            return None;
        }
        let b = data[*pos];
        *pos = *pos + 1;
        result = result | (((b & 0x7f) as u64) << shift);
        if b & 0x80 == 0 {
            return Some((flag, result));
        }
        shift = shift + 7;
        i = i + 1;
    }
    if *pos >= data.len() {
        return None;
    }
    let b = data[*pos];
    *pos = *pos + 1;
    result = result | ((b as u64) << 48u32);
    Some((flag, result))
}

/// Locates and reads the clock table of a logical-clock model binary: the
/// header holds the big-endian offset of the table past the first four bytes,
/// the table a `vu57` count (never zero) and that many `vu57` pairs.
pub fn parse_logical_clock_table(data: &[u8]) -> (res: Option<(usize, Vec<LogicalClockBase>)>)
    ensures
        match res {
            Some((off, t)) => spec_parse_logical_clock_table(data@) == Some((off, t@)),
            None => spec_parse_logical_clock_table(data@) is None,
        },
{
    if data.len() == 0 || (data[0] & 0x80) != 0 || data.len() < 4 {
        return None;
    }
    let offset = (((data[0] as u32) << 24) | ((data[1] as u32) << 16) | ((data[2] as u32) << 8) | (
    data[3] as u32)) as usize;
    if offset > usize::MAX - 4 {
        return None;
    }
    let mut pos = 4 + offset;
    let len = match read_vu57(data, &mut pos) {
        Some(l) => l as usize,
        None => return None,
    };
    if len == 0 {
        return None;
    }
    let mut table: Vec<LogicalClockBase> = Vec::new();
    let mut k: usize = 0;
    while k < len
        invariant
            k <= len,
            len > 0,
            spec_parse_logical_clock_table(data@) == match spec_read_clock_entries(
                data@,
                pos as int,
                (len - k) as nat,
            ) {
                Some((rest, _)) => Some((offset, table@ + rest)),
                None => None::<(usize, Seq<LogicalClockBase>)>,
            },
        decreases len - k,
    {
        let sid = match read_vu57(data, &mut pos) {
            Some(v) => v,
            None => return None,
        };
        let time = match read_vu57(data, &mut pos) {
            Some(v) => v,
            None => return None,
        };
        let ghost before = table@;
        table.push(LogicalClockBase { sid, time });
        proof {
            let rest_k = (len - k - 1) as nat;
            match spec_read_clock_entries(data@, pos as int, rest_k) {
                Some((rest, _)) => {
                    assert(before + (seq![LogicalClockBase { sid, time }] + rest) =~= table@ + rest);
                },
                None => {},
            }
        }
        k = k + 1;
    }
    proof {
        assert(table@ + Seq::<LogicalClockBase>::empty() =~= table@);
    }
    Some((offset, table))
}

/// Session id and time of the first clock-table entry.
pub fn first_logical_clock_sid_time(data: &[u8]) -> (res: Option<(u64, u64)>)
    ensures
        res == match spec_parse_logical_clock_table(data@) {
            Some((_, t)) => if t.len() > 0 {
                Some((t[0].sid, t[0].time))
            } else {
                None
            },
            None => None,
        },
{
    match parse_logical_clock_table(data) {
        Some((_, table)) => {
            if table.len() == 0 {
                None
            } else {
                Some((table[0].sid, table[0].time))
            }
        },
        None => None,
    }
}

} // verus!
