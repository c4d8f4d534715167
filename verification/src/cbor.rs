//! Reading single CBOR items through `ciborium`, and their conversion into
//! JSON values.

use vstd::prelude::*;
use ciborium::value::Value;
use crate::cbor_enc::json_cbor_bytes;
use vstd::utf8::encode_utf8;
use crate::json::{entry_keys, is_finite_bits, object_insert, spec_is_finite_bits, JsonNumber, JsonValue, JsonView};

verus! {

/// A CBOR value of `ciborium`, carried through opaquely.
#[verifier::external_type_specification]
#[verifier::external_body]
pub struct ExCborValue(ciborium::value::Value);

/// A CBOR value, as the library holds one read from bytes (a float as its
/// IEEE-754 bits, an integer as `i128`).
#[derive(Debug)]
pub enum CborValue {
    Integer(i128),
    Bytes(Vec<u8>),
    Float(u64),
    Text(String),
    Bool(bool),
    Null,
    Tag(u64, Box<CborValue>),
    Array(Vec<CborValue>),
    Entries(Vec<(CborValue, CborValue)>),
    Unknown,
}

/// What heads a CBOR item, with text and integers set apart from the other
/// values.
pub enum CborHead {
    Text(Seq<char>),
    Integer(int),
    Other(CborValue),
}

/// The first CBOR item of `data`, as `ciborium` decodes it: its head and the
/// number of bytes it spans; `None` where no item can be decoded.
pub uninterp spec fn cbor_item(data: Seq<u8>) -> Option<(CborHead, nat)>;

/// One decoded CBOR item, with text and integers set apart.
pub enum CborRead {
    Text(String, usize),
    Integer(i128, usize),
    Other(CborValue, usize),
}

/// The library's form of a `ciborium` value: one variant for each of
/// `ciborium`'s, fields moved over (children converted the same way).
#[verifier::external_body]
fn cbor_lift(v: Value) -> CborValue {
    match v {
        Value::Integer(i) => CborValue::Integer(i.into()),
        Value::Bytes(b) => CborValue::Bytes(b),
        Value::Float(f) => CborValue::Float(f.to_bits()),
        Value::Text(s) => CborValue::Text(s),
        Value::Bool(b) => CborValue::Bool(b),
        Value::Null => CborValue::Null,
        Value::Tag(t, b) => CborValue::Tag(t, Box::new(cbor_lift(*b))),
        Value::Array(a) => CborValue::Array(a.into_iter().map(cbor_lift).collect()),
        Value::Map(m) => CborValue::Entries(m.into_iter().map(|(k, x)| (cbor_lift(k), cbor_lift(x))).collect()),
        _ => CborValue::Unknown,
    }
}

/// Whether the CBOR that `json_cbor_bytes` writes for `v` reads back as `v`:
/// at most `d - 1` levels of arrays and objects (each container needing
/// `d >= 2`), negative integers negative, floats finite, texts and keys of at
/// most `u32::MAX` UTF-8 bytes, and no key twice in an object.
pub open spec fn json_fit(v: JsonView, d: nat) -> bool
    decreases v,
{
    match v {
        JsonView::Number(JsonNumber::NegInt(i)) => d >= 1 && i < 0,
        JsonView::Number(JsonNumber::Float(bits)) => d >= 1 && spec_is_finite_bits(bits),
        JsonView::String(s) => d >= 1 && encode_utf8(s).len() <= u32::MAX,
        JsonView::Array(items) => d >= 2 && json_items_fit(items, (d - 1) as nat),
        JsonView::Object(es) => d >= 2 && keys_distinct(es) && json_entries_fit(es, (d - 1) as nat),
        _ => d >= 1,
    }
}

/// Each item fits (see `json_fit`).
pub open spec fn json_items_fit(items: Seq<JsonView>, d: nat) -> bool
    decreases items,
{
    if items.len() == 0 {
        true
    } else {
        json_items_fit(items.drop_last(), d) && json_fit(items.last(), d)
    }
}

/// Each entry's key is short enough and its value fits (see `json_fit`).
pub open spec fn json_entries_fit(es: Seq<(Seq<char>, JsonView)>, d: nat) -> bool
    decreases es,
{
    if es.len() == 0 {
        true
    } else {
        json_entries_fit(es.drop_last(), d) && encode_utf8(es.last().0).len() <= u32::MAX && json_fit(es.last().1, d)
    }
}

/// Whether `data` starts with `prefix`.
pub open spec fn starts_with(data: Seq<u8>, prefix: Seq<u8>) -> bool {
    prefix.len() <= data.len() && data.subrange(0, prefix.len() as int) == prefix
}

/// Decodes the first CBOR item of `data` with `ciborium::de::from_reader`
/// over a cursor, and reports the cursor's position after it. The contract
/// claims that the outcome is a function of the bytes (named `cbor_item`),
/// that the item lies within `data`, that the CBOR `json_cbor_bytes` writes
/// for a JSON value that fits (`json_fit`) reads back as that value, and
/// that the byte 0xf7 (undefined) is read as one item of one byte.
#[verifier::external_body]
pub fn cbor_read_one(data: &[u8]) -> (res: Option<CborRead>)
    ensures
        match res {
            Some(CborRead::Text(s, n)) => cbor_item(data@) == Some((CborHead::Text(s@), n as nat))
                && n <= data@.len(),
            Some(CborRead::Integer(i, n)) => cbor_item(data@) == Some(
                (CborHead::Integer(i as int), n as nat),
            ) && n <= data@.len(),
            Some(CborRead::Other(v, n)) => cbor_item(data@) == Some((CborHead::Other(v), n as nat))
                && n <= data@.len(),
            None => cbor_item(data@) is None,
        },
        match res {
            Some(CborRead::Text(s, n)) => forall|j: JsonView| #![trigger json_cbor_bytes(j)]
                json_fit(j, 257) && starts_with(data@, json_cbor_bytes(j)) ==> j == JsonView::String(s@)
                    && n == json_cbor_bytes(j).len(),
            Some(CborRead::Integer(i, n)) => forall|j: JsonView| #![trigger json_cbor_bytes(j)]
                json_fit(j, 257) && starts_with(data@, json_cbor_bytes(j)) ==> spec_int_to_json(i as int)
                    == Some(j->Number_0) && j is Number && n == json_cbor_bytes(j).len(),
            Some(CborRead::Other(v, n)) => forall|j: JsonView| #![trigger json_cbor_bytes(j)]
                json_fit(j, 257) && starts_with(data@, json_cbor_bytes(j)) ==> cbor_json(v, 257) == Some(j)
                    && !(j is String) && n == json_cbor_bytes(j).len(),
            None => forall|j: JsonView| #![trigger json_cbor_bytes(j)]
                !(json_fit(j, 257) && starts_with(data@, json_cbor_bytes(j))),
        },
        match res {
            Some(CborRead::Other(_, n)) => data@.len() >= 1 && data@[0] == 0xf7 ==> n == 1,
            _ => !(data@.len() >= 1 && data@[0] == 0xf7),
        },
{
    let mut cursor = std::io::Cursor::new(data);
    let v = ciborium::de::from_reader::<ciborium::value::Value, _>(&mut cursor).ok()?;
    let n = cursor.position() as usize;
    Some(match v {
        ciborium::value::Value::Text(s) => CborRead::Text(s, n),
        ciborium::value::Value::Integer(i) => CborRead::Integer(i.into(), n),
        other => CborRead::Other(cbor_lift(other), n),
    })
}

/// The JSON number for a CBOR integer: `None` outside the range of `u64`
/// for non-negative values and of `i64` for negative ones.
pub open spec fn spec_int_to_json(i: int) -> Option<JsonNumber> {
    if i >= 0 {
        if i <= u64::MAX {
            Some(JsonNumber::PosInt(i as u64))
        } else {
            None
        }
    } else if i >= i64::MIN {
        Some(JsonNumber::NegInt(i as i64))
    } else {
        None
    }
}

/// Converts a CBOR integer into a JSON number.
pub fn int_to_json(i: i128) -> (res: Option<JsonNumber>)
    ensures
        res == spec_int_to_json(i as int),
{
    if i >= 0 {
        if i <= 0xffff_ffff_ffff_ffffi128 {
            Some(JsonNumber::PosInt(i as u64))
        } else {
            None
        }
    } else if i >= -0x8000_0000_0000_0000i128 {
        Some(JsonNumber::NegInt(i as i64))
    } else {
        None
    }
}

/// Whether no two object entries share a key.
pub open spec fn keys_distinct(es: Seq<(Seq<char>, JsonView)>) -> bool {
    forall|a: int, b: int| 0 <= a < b < es.len() ==> es[a].0 != es[b].0
}

/// The object entries with `k` set to `v`: an entry with that key gets the
/// new value in place, else the entry is appended.
pub open spec fn obj_set(es: Seq<(Seq<char>, JsonView)>, k: Seq<char>, v: JsonView) -> Seq<(Seq<char>, JsonView)> {
    if exists|i: int| 0 <= i < es.len() && es[i].0 == k {
        let i = choose|i: int| 0 <= i < es.len() && es[i].0 == k;
        es.update(i, (k, v))
    } else {
        es.push((k, v))
    }
}

/// The JSON value of a CBOR value, nested at most `d` deep: integers within
/// the range of `u64` (non-negative) or `i64` (negative) become numbers,
/// finite floats numbers, byte strings arrays of byte numbers, text strings,
/// arrays arrays, maps with text keys objects (a later entry with a key
/// replacing an earlier one's value); tags and anything else are refused.
pub open spec fn cbor_json(v: CborValue, d: nat) -> Option<JsonView>
    decreases d, 0nat, 0nat,
{
    if d == 0 {
        None
    } else {
        match v {
            CborValue::Integer(i) => match spec_int_to_json(i as int) {
                Some(n) => Some(JsonView::Number(n)),
                None => None,
            },
            CborValue::Bytes(b) => Some(
                JsonView::Array(b@.map_values(|x: u8| JsonView::Number(JsonNumber::PosInt(x as u64)))),
            ),
            CborValue::Float(bits) => if spec_is_finite_bits(bits) {
                Some(JsonView::Number(JsonNumber::Float(bits)))
            } else {
                None
            },
            CborValue::Text(s) => Some(JsonView::String(s@)),
            CborValue::Bool(b) => Some(JsonView::Bool(b)),
            CborValue::Null => Some(JsonView::Null),
            CborValue::Array(a) => match cbor_json_items(a@, (d - 1) as nat, a@.len()) {
                Some(items) => Some(JsonView::Array(items)),
                None => None,
            },
            CborValue::Entries(m) => match cbor_json_entries(m@, (d - 1) as nat, m@.len()) {
                Some(es) => Some(JsonView::Object(es)),
                None => None,
            },
            _ => None,
        }
    }
}

/// The JSON values of the first `k` items, each nested at most `d` deep.
pub open spec fn cbor_json_items(a: Seq<CborValue>, d: nat, k: nat) -> Option<Seq<JsonView>>
    decreases d, 1nat, k,
{
    if k == 0 || k > a.len() {
        if k == 0 {
            Some(Seq::empty())
        } else {
            None
        }
    } else {
        match cbor_json_items(a, d, (k - 1) as nat) {
            None => None,
            Some(items) => match cbor_json(a[k - 1], d) {
                Some(j) => Some(items.push(j)),
                None => None,
            },
        }
    }
}

/// The object entries of the first `k` map entries, values nested at most
/// `d` deep.
pub open spec fn cbor_json_entries(m: Seq<(CborValue, CborValue)>, d: nat, k: nat) -> Option<Seq<(Seq<char>, JsonView)>>
    decreases d, 1nat, k,
{
    if k == 0 || k > m.len() {
        if k == 0 {
            Some(Seq::empty())
        } else {
            None
        }
    } else {
        match cbor_json_entries(m, d, (k - 1) as nat) {
            None => None,
            Some(es) => match m[k - 1].0 {
                CborValue::Text(key) => match cbor_json(m[k - 1].1, d) {
                    Some(j) => Some(obj_set(es, key@, j)),
                    None => None,
                },
                _ => None,
            },
        }
    }
}

/// Entries built by `obj_set` from none have distinct keys.
proof fn lemma_entries_distinct(m: Seq<(CborValue, CborValue)>, d: nat, k: nat)
    ensures
        cbor_json_entries(m, d, k) matches Some(es) ==> keys_distinct(es),
    decreases k,
{
    if k > 0 && k <= m.len() {
        lemma_entries_distinct(m, d, (k - 1) as nat);
    }
}

/// The JSON values of object entries.
spec fn entries_jv(es: Seq<(String, JsonValue)>) -> Seq<(Seq<char>, JsonView)> {
    Seq::new(es.len(), |i: int| (es[i].0@, es[i].1.jv()))
}

/// Converts a CBOR value into JSON (see `cbor_json`). `depth` bounds the
/// nesting still allowed; values decoded by `ciborium::de::from_reader` nest
/// at most 256 deep (its recursion limit), so the bound 257 never refuses one
/// of them.
pub fn cbor_to_json(v: &CborValue, depth: usize) -> (res: Option<JsonValue>)
    ensures
        match res {
            Some(j) => cbor_json(*v, depth as nat) == Some(j.jv()),
            None => cbor_json(*v, depth as nat) is None,
        },
    decreases depth,
{
    if depth == 0 {
        return None;
    }
    let d = depth - 1;
    match v {
        CborValue::Null => Some(JsonValue::Null),
        CborValue::Bool(b) => Some(JsonValue::Bool(*b)),
        CborValue::Integer(i) => match int_to_json(*i) {
            Some(n) => Some(JsonValue::Number(n)),
            None => None,
        },
        CborValue::Float(bits) => if is_finite_bits(*bits) {
            Some(JsonValue::Number(JsonNumber::Float(*bits)))
        } else {
            None
        },
        CborValue::Text(s) => Some(JsonValue::String(s.clone())),
        CborValue::Bytes(bytes) => {
            let mut out: Vec<JsonValue> = Vec::new();
            let mut i: usize = 0;
            while i < bytes.len()
                invariant
                    i <= bytes.len(),
                    out@.len() == i,
                    forall|k: int| 0 <= k < i ==> out@[k] == JsonValue::Number(
                        JsonNumber::PosInt(bytes@[k] as u64),
                    ),
                decreases bytes.len() - i,
            {
                out.push(JsonValue::Number(JsonNumber::PosInt(bytes[i] as u64)));
                i = i + 1;
            }
            let ghost outv = out@;
            let res = JsonValue::Array(out);
            assert(res.jv() == JsonView::Array(bytes@.map_values(|x: u8| JsonView::Number(JsonNumber::PosInt(x as u64))))) by {
                assert(JsonView::Array(bytes@.map_values(|x: u8| JsonView::Number(JsonNumber::PosInt(x as u64))))
                    == res.jv()) by {
                    if let JsonView::Array(js) = res.jv() {
                        let m = bytes@.map_values(|x: u8| JsonView::Number(JsonNumber::PosInt(x as u64)));
                        assert forall|q: int| 0 <= q < js.len() implies js[q] == m[q] by {
                            assert(outv[q] == JsonValue::Number(JsonNumber::PosInt(bytes@[q] as u64)));
                            assert(js[q] == outv[q].jv());
                            assert(m[q] == JsonView::Number(JsonNumber::PosInt(bytes@[q] as u64)));
                        }
                        assert(js =~= m);
                    }
                }
            }
            Some(res)
        },
        CborValue::Array(items) => {
            let mut out: Vec<JsonValue> = Vec::new();
            let mut k: usize = 0;
            while k < items.len()
                invariant
                    k <= items@.len(),
                    depth > 0,
                    d == depth - 1,
                    *v == CborValue::Array(*items),
                    cbor_json_items(items@, d as nat, k as nat) == Some(Seq::new(out@.len(), |i: int| out@[i].jv())),
                    out@.len() == k,
                decreases items.len() - k,
            {
                match cbor_to_json(&items[k], d) {
                    Some(j) => {
                        let ghost o0 = Seq::new(out@.len(), |i: int| out@[i].jv());
                        out.push(j);
                        assert(Seq::new(out@.len(), |i: int| out@[i].jv()) =~= o0.push(j.jv()));
                    },
                    None => {
                        proof {
                            lemma_items_none(items@, d as nat, (k + 1) as nat, items@.len());
                        }
                        return None;
                    },
                }
                k = k + 1;
            }
            let res = JsonValue::Array(out);
            proof {
                if let JsonView::Array(js) = res.jv() {
                    assert(js =~= Seq::new(out@.len(), |i: int| out@[i].jv()));
                }
            }
            Some(res)
        },
        CborValue::Entries(entries) => {
            let mut out: Vec<(String, JsonValue)> = Vec::new();
            let mut k: usize = 0;
            while k < entries.len()
                invariant
                    k <= entries@.len(),
                    depth > 0,
                    d == depth - 1,
                    *v == CborValue::Entries(*entries),
                    cbor_json_entries(entries@, d as nat, k as nat) == Some(entries_jv(out@)),
                decreases entries.len() - k,
            {
                let key = match &entries[k].0 {
                    CborValue::Text(s) => s.clone(),
                    _ => {
                        proof {
                            lemma_entries_none(entries@, d as nat, (k + 1) as nat, entries@.len());
                        }
                        return None;
                    },
                };
                match cbor_to_json(&entries[k].1, d) {
                    Some(j) => {
                        let ghost e0 = entries_jv(out@);
                        let ghost old_es = out@;
                        let ghost kv = key@;
                        proof {
                            lemma_entries_distinct(entries@, d as nat, k as nat);
                        }
                        object_insert(&mut out, key, j);
                        proof {
                            if entry_keys(old_es).contains(kv) {
                                let i = choose|i: int| 0 <= i < old_es.len() && entry_keys(old_es)[i] == kv
                                    && out@ == old_es.update(i, (old_es[i].0, j));
                                assert(e0[i].0 == kv);
                                let c = choose|c: int| 0 <= c < e0.len() && e0[c].0 == kv;
                                assert(c == i) by {
                                    if c < i {
                                        assert(e0[c].0 != e0[i].0);
                                    } else if c > i {
                                        assert(e0[i].0 != e0[c].0);
                                    }
                                }
                                assert(entries_jv(out@) =~= e0.update(i, (kv, j.jv())));
                            } else {
                                assert(!exists|c: int| 0 <= c < e0.len() && e0[c].0 == kv) by {
                                    if exists|c: int| 0 <= c < e0.len() && e0[c].0 == kv {
                                        let c = choose|c: int| 0 <= c < e0.len() && e0[c].0 == kv;
                                        assert(entry_keys(old_es)[c] == kv);
                                    }
                                }
                                assert(entries_jv(out@) =~= e0.push((kv, j.jv())));
                            }
                        }
                    },
                    None => {
                        proof {
                            lemma_entries_none(entries@, d as nat, (k + 1) as nat, entries@.len());
                        }
                        return None;
                    },
                }
                k = k + 1;
            }
            let res = JsonValue::Object(out);
            proof {
                if let JsonView::Object(js) = res.jv() {
                    assert(js =~= entries_jv(out@));
                }
            }
            Some(res)
        },
        _ => None,
    }
}

/// A refused item refuses the rest.
proof fn lemma_items_none(a: Seq<CborValue>, d: nat, i: nat, n: nat)
    requires
        i <= n <= a.len(),
        cbor_json_items(a, d, i) is None,
    ensures
        cbor_json_items(a, d, n) is None,
    decreases n,
{
    if n > i {
        lemma_items_none(a, d, i, (n - 1) as nat);
    }
}

/// A refused entry refuses the rest.
proof fn lemma_entries_none(m: Seq<(CborValue, CborValue)>, d: nat, i: nat, n: nat)
    requires
        i <= n <= m.len(),
        cbor_json_entries(m, d, i) is None,
    ensures
        cbor_json_entries(m, d, n) is None,
    decreases n,
{
    if n > i {
        lemma_entries_none(m, d, i, (n - 1) as nat);
    }
}

} // verus!
