//! CBOR writing in the manner of the `json-pack` encoder: unsigned heads in
//! their shortest form, text heads sized by four bytes per UTF-8 byte of the
//! text (not by the text's own length), and floats as single precision when
//! that loses nothing.

use vstd::prelude::*;
use vstd::utf8::encode_utf8;
use crate::json::{JsonNumber, JsonValue, JsonView};

verus! {

/// The byte of `v` that is `k` bytes from its least significant end.
pub open spec fn byte_of(v: u64, k: nat) -> u8 {
    (v >> ((8 * k) as u64)) as u8
}

/// The low `n` bytes of `v`, most significant first.
pub open spec fn be_bytes(v: u64, n: nat) -> Seq<u8> {
    Seq::new(n, |i: int| byte_of(v, (n - 1 - i) as nat))
}

/// The CBOR head of major type `major` (below 8) with argument `v`, in its
/// shortest form.
pub open spec fn cbor_uint_bytes(major: u8, v: u64) -> Seq<u8> {
    let m = (major * 32) as int;
    if v <= 23 {
        seq![(m + v) as u8]
    } else if v <= 0xff {
        seq![(m + 24) as u8, v as u8]
    } else if v <= 0xffff {
        seq![(m + 25) as u8] + be_bytes(v, 2)
    } else if v <= 0xffff_ffff {
        seq![(m + 26) as u8] + be_bytes(v, 4)
    } else {
        seq![(m + 27) as u8] + be_bytes(v, 8)
    }
}

/// Appends the low `n` bytes of `v`, most significant first.
pub(crate) fn push_be(out: &mut Vec<u8>, v: u64, n: usize)
    requires
        n <= 8,
    ensures
        final(out)@ == old(out)@ + be_bytes(v, n as nat),
{
    let mut i: usize = 0;
    while i < n
        invariant
            i <= n <= 8,
            out@ =~= old(out)@ + be_bytes(v, n as nat).take(i as int),
        decreases n - i,
    {
        let shift = (8 * (n - 1 - i)) as u64;
        out.push((v >> shift) as u8);
        proof {
            assert(be_bytes(v, n as nat)[i as int] == byte_of(v, (n - 1 - i) as nat));
            assert(be_bytes(v, n as nat).take(i + 1) =~= be_bytes(v, n as nat).take(i as int).push((v >> shift) as u8));
        }
        i = i + 1;
    }
    assert(be_bytes(v, n as nat).take(n as int) =~= be_bytes(v, n as nat));
}

/// Appends the CBOR head of major type `major` with argument `value`, in its
/// shortest form.
pub fn write_cbor_uint(out: &mut Vec<u8>, major: u8, value: u64)
    requires
        major < 8,
    ensures
        final(out)@ == old(out)@ + cbor_uint_bytes(major, value),
{
    let m: u8 = major << 5;
    assert(m == major * 32) by (bit_vector)
        requires
            major < 8,
            m == major << 5,
    ;
    if value <= 23 {
        let b = m | (value as u8);
        assert(b == m + value) by (bit_vector)
            requires
                major < 8,
                m == major * 32,
                value <= 23,
                b == m | (value as u8),
        ;
        out.push(b);
    } else if value <= 0xff {
        out.push(m | 24);
        assert(m | 24 == m + 24) by (bit_vector)
            requires
                major < 8,
                m == major * 32,
        ;
        out.push(value as u8);
    } else if value <= 0xffff {
        out.push(m | 25);
        assert(m | 25 == m + 25) by (bit_vector)
            requires
                major < 8,
                m == major * 32,
        ;
        push_be(out, value, 2);
    } else if value <= 0xffff_ffff {
        out.push(m | 26);
        assert(m | 26 == m + 26) by (bit_vector)
            requires
                major < 8,
                m == major * 32,
        ;
        push_be(out, value, 4);
    } else {
        out.push(m | 27);
        assert(m | 27 == m + 27) by (bit_vector)
            requires
                major < 8,
                m == major * 32,
        ;
        push_be(out, value, 8);
    }
    proof {
        assert(out@ =~= old(out)@ + cbor_uint_bytes(major, value));
    }
}

/// The CBOR text string for `s`: a head sized by four bytes per UTF-8 byte
/// (one byte up to 23, then one, two or four length bytes), the UTF-8 length
/// in it, then the UTF-8 bytes.
pub open spec fn cbor_text_bytes(s: Seq<char>) -> Seq<u8> {
    let u = encode_utf8(s);
    let len = u.len();
    let max: int = if len * 4 > usize::MAX { usize::MAX as int } else { (len * 4) as int };
    let head = if max <= 23 {
        seq![(0x60 + (len as u8 as int)) as u8]
    } else if max <= 0xff {
        seq![0x78u8, len as u8]
    } else if max <= 0xffff {
        seq![0x79u8] + be_bytes(len as u64, 2)
    } else {
        seq![0x7au8] + be_bytes(len as u64, 4)
    };
    head + u
}

/// Appends the CBOR text string for `s` (see `cbor_text_bytes`).
pub fn write_cbor_text(out: &mut Vec<u8>, s: &str)
    ensures
        final(out)@ == old(out)@ + cbor_text_bytes(s@),
{
    let utf8 = s.as_bytes();
    let len = utf8.len();
    let max_size: usize = if len > usize::MAX / 4 { usize::MAX } else { len * 4 };
    if max_size <= 23 {
        let b: u8 = 0x60 | (len as u8);
        assert(b == 0x60 + (len as u8)) by (bit_vector)
            requires
                len <= 5,
                b == 0x60 | (len as u8),
        ;
        out.push(b);
    } else if max_size <= 0xff {
        out.push(0x78);
        out.push(len as u8);
    } else if max_size <= 0xffff {
        out.push(0x79);
        push_be(out, len as u64, 2);
    } else {
        out.push(0x7a);
        push_be(out, len as u64, 4);
    }
    let ghost o1 = out@;
    let mut i: usize = 0;
    while i < len
        invariant
            i <= len,
            len == utf8@.len(),
            out@ =~= o1 + utf8@.take(i as int),
        decreases len - i,
    {
        out.push(utf8[i]);
        i = i + 1;
    }
    proof {
        assert(utf8@.take(len as int) =~= utf8@);
        assert(out@ =~= old(out)@ + cbor_text_bytes(s@));
    }
}

/// The single-precision bits of the double with bits `bits`, when converting
/// it to single precision loses nothing (infinities included, NaN excluded).
pub open spec fn f32_exact_bits(bits: u64) -> Option<u32> {
    let sign = (bits >> 63u64) as u32;
    let e = (bits >> 52u64) & 0x7ff;
    let f = bits & 0xf_ffff_ffff_ffff;
    if e == 0 {
        if f == 0 {
            Some(sign << 31u32)
        } else {
            None
        }
    } else if e == 0x7ff {
        if f == 0 {
            Some((sign << 31u32) | 0x7f80_0000u32)
        } else {
            None
        }
    } else if 897 <= e <= 1150 {
        if f & 0x1fff_ffff == 0 {
            Some((sign << 31u32) | (((e - 896) as u32) << 23u32) | ((f >> 29u64) as u32))
        } else {
            None
        }
    } else if 874 <= e < 897 {
        let m = f | 0x10_0000_0000_0000;
        let sh = (926 - e) as u64;
        if m & ((1u64 << sh) - 1) as u64 == 0 {
            Some((sign << 31u32) | ((m >> sh) as u32))
        } else {
            None
        }
    } else {
        None
    }
}

/// The single-precision bits of a double when it converts without loss.
fn f32_exact(bits: u64) -> (res: Option<u32>)
    ensures
        res == f32_exact_bits(bits),
{
    let sign = (bits >> 63) as u32;
    let e = (bits >> 52) & 0x7ff;
    let f = bits & 0xf_ffff_ffff_ffff;
    if e == 0 {
        if f == 0 {
            Some(sign << 31)
        } else {
            None
        }
    } else if e == 0x7ff {
        if f == 0 {
            Some((sign << 31) | 0x7f80_0000)
        } else {
            None
        }
    } else if 897 <= e && e <= 1150 {
        if f & 0x1fff_ffff == 0 {
            Some((sign << 31) | (((e - 896) as u32) << 23) | ((f >> 29) as u32))
        } else {
            None
        }
    } else if 874 <= e && e < 897 {
        let m = f | 0x10_0000_0000_0000;
        let sh = 926 - e;
        assert(30 <= sh <= 52);
        let one: u64 = 1;
        assert(one << sh >= 1) by (bit_vector)
            requires
                30 <= sh <= 52,
                one == 1,
        ;
        let mask = (one << sh) - 1;
        if m & mask == 0 {
            Some((sign << 31) | ((m >> sh) as u32))
        } else {
            None
        }
    } else {
        None
    }
}

/// The CBOR encoding of a JSON value in the manner of `json-pack`: null,
/// booleans, integers as unsigned or negative heads, finite floats as single
/// precision when exact else double, text, and arrays and maps of their
/// items in order.
pub open spec fn json_cbor_bytes(v: JsonView) -> Seq<u8>
    decreases v,
{
    match v {
        JsonView::Null => seq![0xf6u8],
        JsonView::Bool(b) => if b { seq![0xf5u8] } else { seq![0xf4u8] },
        JsonView::Number(JsonNumber::PosInt(u)) => cbor_uint_bytes(0, u),
        JsonView::Number(JsonNumber::NegInt(i)) => if i >= 0 {
            cbor_uint_bytes(0, i as u64)
        } else {
            cbor_uint_bytes(1, (-1 - i) as u64)
        },
        JsonView::Number(JsonNumber::Float(bits)) => match f32_exact_bits(bits) {
            Some(b32) => seq![0xfau8] + be_bytes(b32 as u64, 4),
            None => seq![0xfbu8] + be_bytes(bits, 8),
        },
        JsonView::String(s) => cbor_text_bytes(s),
        JsonView::Array(items) => cbor_uint_bytes(4, items.len() as u64) + json_items_bytes(items),
        JsonView::Object(es) => cbor_uint_bytes(5, es.len() as u64) + json_entries_bytes(es),
    }
}

/// The encodings of the items, one after the other.
pub open spec fn json_items_bytes(items: Seq<JsonView>) -> Seq<u8>
    decreases items,
{
    if items.len() == 0 {
        Seq::empty()
    } else {
        json_items_bytes(items.drop_last()) + json_cbor_bytes(items.last())
    }
}

/// The encodings of the entries (key text, then value), one after the other.
pub open spec fn json_entries_bytes(es: Seq<(Seq<char>, JsonView)>) -> Seq<u8>
    decreases es,
{
    if es.len() == 0 {
        Seq::empty()
    } else {
        json_entries_bytes(es.drop_last()) + cbor_text_bytes(es.last().0) + json_cbor_bytes(es.last().1)
    }
}

/// Appends the CBOR encoding of a JSON value (see `json_cbor_bytes`).
#[verifier::loop_isolation(false)]
pub fn write_cbor_json(out: &mut Vec<u8>, v: &JsonValue)
    ensures
        final(out)@ == old(out)@ + json_cbor_bytes(v.jv()),
    decreases v,
{
    match v {
        JsonValue::Null => out.push(0xf6),
        JsonValue::Bool(b) => out.push(if *b { 0xf5 } else { 0xf4 }),
        JsonValue::Number(JsonNumber::PosInt(u)) => write_cbor_uint(out, 0, *u),
        JsonValue::Number(JsonNumber::NegInt(i)) => {
            if *i >= 0 {
                write_cbor_uint(out, 0, *i as u64);
            } else {
                write_cbor_uint(out, 1, (-1 - *i) as u64);
            }
        },
        JsonValue::Number(JsonNumber::Float(bits)) => match f32_exact(*bits) {
            Some(b32) => {
                out.push(0xfa);
                push_be(out, b32 as u64, 4);
            },
            None => {
                out.push(0xfb);
                push_be(out, *bits, 8);
            },
        },
        JsonValue::String(s) => write_cbor_text(out, s.as_str()),
        JsonValue::Array(items) => {
            write_cbor_uint(out, 4, items.len() as u64);
            let ghost o1 = out@;
            let ghost iv = crate::model_runtime::view::items_jv(items@);
            let mut i: usize = 0;
            assert(iv.take(0) =~= Seq::<JsonView>::empty());
            while i < items.len()
                invariant
                    i <= items@.len(),
                    *v == JsonValue::Array(*items),
                    iv == crate::model_runtime::view::items_jv(items@),
                    out@ == o1 + json_items_bytes(iv.take(i as int)),
                decreases items.len() - i,
            {
                proof {
                    vstd::std_specs::vec::axiom_vec_index_decreases(*items, i as int);
                    assert(iv.take(i + 1).drop_last() =~= iv.take(i as int));
                    assert(iv.take(i + 1).last() == items@[i as int].jv());
                }
                write_cbor_json(out, &items[i]);
                proof {
                    assert(out@ =~= o1 + json_items_bytes(iv.take(i + 1)));
                }
                i = i + 1;
            }
            proof {
                assert(iv.take(items@.len() as int) =~= iv);
                assert(v.jv()->Array_0 =~= iv);
                assert(out@ =~= old(out)@ + json_cbor_bytes(v.jv()));
            }
        },
        JsonValue::Object(es) => {
            write_cbor_uint(out, 5, es.len() as u64);
            let ghost o1 = out@;
            let ghost ev = crate::model_runtime::view::entries_jv(es@);
            let mut i: usize = 0;
            assert(ev.take(0) =~= Seq::<(Seq<char>, JsonView)>::empty());
            while i < es.len()
                invariant
                    i <= es@.len(),
                    *v == JsonValue::Object(*es),
                    ev == crate::model_runtime::view::entries_jv(es@),
                    out@ == o1 + json_entries_bytes(ev.take(i as int)),
                decreases es.len() - i,
            {
                proof {
                    vstd::std_specs::vec::axiom_vec_index_decreases(*es, i as int);
                    assert(decreases_to!(es@[i as int] => es@[i as int].1));
                    assert(ev.take(i + 1).drop_last() =~= ev.take(i as int));
                    assert(ev.take(i + 1).last() == (es@[i as int].0@, es@[i as int].1.jv()));
                }
                write_cbor_text(out, es[i].0.as_str());
                write_cbor_json(out, &es[i].1);
                proof {
                    assert(out@ =~= o1 + json_entries_bytes(ev.take(i + 1)));
                }
                i = i + 1;
            }
            proof {
                assert(ev.take(es@.len() as int) =~= ev);
                assert(v.jv()->Object_0 =~= ev);
                assert(out@ =~= old(out)@ + json_cbor_bytes(v.jv()));
            }
        },
    }
}

} // verus!
