//! JSON values as the library holds them: numbers keep their exact integer or
//! IEEE-754 form, objects keep their entries in insertion order.

use vstd::prelude::*;

verus! {

/// A JSON number: a non-negative integer, a negative integer, or a finite
/// double given by its IEEE-754 bits.
#[derive(Debug, Clone, Copy, PartialEq, Eq, Structural)]
pub enum JsonNumber {
    PosInt(u64),
    NegInt(i64),
    Float(u64),
}

/// A JSON value. Object entries have distinct keys.
#[derive(Debug, PartialEq)]
pub enum JsonValue {
    Null,
    Bool(bool),
    Number(JsonNumber),
    String(String),
    Array(Vec<JsonValue>),
    Object(Vec<(String, JsonValue)>),
}

/// The mathematical content of a JSON value.
pub enum JsonView {
    Null,
    Bool(bool),
    Number(JsonNumber),
    String(Seq<char>),
    Array(Seq<JsonView>),
    Object(Seq<(Seq<char>, JsonView)>),
}

impl JsonValue {
    /// The mathematical content of the value.
    pub open spec fn jv(&self) -> JsonView
        decreases self,
    {
        match self {
            JsonValue::Null => JsonView::Null,
            JsonValue::Bool(b) => JsonView::Bool(*b),
            JsonValue::Number(n) => JsonView::Number(*n),
            JsonValue::String(s) => JsonView::String(s@),
            JsonValue::Array(items) => JsonView::Array(
                Seq::new(
                    items@.len(),
                    |i: int|
                        if 0 <= i < items@.len() {
                            items@[i].jv()
                        } else {
                            JsonView::Null
                        },
                ),
            ),
            JsonValue::Object(entries) => JsonView::Object(
                Seq::new(
                    entries@.len(),
                    |i: int|
                        if 0 <= i < entries@.len() {
                            (entries@[i].0@, entries@[i].1.jv())
                        } else {
                            (Seq::empty(), JsonView::Null)
                        },
                ),
            ),
        }
    }

    /// A copy of the value.
    #[verifier::loop_isolation(false)]
    pub fn deep_clone(&self) -> (res: JsonValue)
        ensures
            res.jv() == self.jv(),
        decreases self,
    {
        match self {
            JsonValue::Null => JsonValue::Null,
            JsonValue::Bool(b) => JsonValue::Bool(*b),
            JsonValue::Number(n) => JsonValue::Number(*n),
            JsonValue::String(s) => JsonValue::String(s.clone()),
            JsonValue::Array(items) => {
                let mut out: Vec<JsonValue> = Vec::new();
                let mut i: usize = 0;
                while i < items.len()
                    invariant
                        i <= items.len(),
                        out@.len() == i,
                        *self == JsonValue::Array(*items),
                        forall|k: int| 0 <= k < i ==> #[trigger] out@[k].jv() == items@[k].jv(),
                    decreases items.len() - i,
                {
                    proof {
                        vstd::std_specs::vec::axiom_vec_index_decreases(*items, i as int);
                    }
                    let c = items[i].deep_clone();
                    out.push(c);
                    i = i + 1;
                }
                let res = JsonValue::Array(out);
                assert(res.jv() == self.jv()) by {
                    if let JsonView::Array(a) = res.jv() {
                        if let JsonView::Array(b) = self.jv() {
                            assert(a.len() == b.len());
                            assert forall|k: int| 0 <= k < a.len() implies a[k] == b[k] by {
                                assert(a[k] == out@[k].jv());
                                assert(b[k] == items@[k].jv());
                            }
                            assert(a =~= b);
                        }
                    }
                }
                res
            },
            JsonValue::Object(entries) => {
                let mut out: Vec<(String, JsonValue)> = Vec::new();
                let mut i: usize = 0;
                while i < entries.len()
                    invariant
                        i <= entries.len(),
                        out@.len() == i,
                        *self == JsonValue::Object(*entries),
                        forall|k: int| 0 <= k < i ==> #[trigger] out@[k].0@ == entries@[k].0@
                            && out@[k].1.jv() == entries@[k].1.jv(),
                    decreases entries.len() - i,
                {
                    proof {
                        vstd::std_specs::vec::axiom_vec_index_decreases(*entries, i as int);
                        assert(decreases_to!(entries@[i as int] => entries@[i as int].1));
                    }
                    let k = entries[i].0.clone();
                    let v = entries[i].1.deep_clone();
                    out.push((k, v));
                    i = i + 1;
                }
                let res = JsonValue::Object(out);
                assert(res.jv() == self.jv()) by {
                    if let JsonView::Object(a) = res.jv() {
                        if let JsonView::Object(b) = self.jv() {
                            assert(a.len() == b.len());
                            assert forall|k: int| 0 <= k < a.len() implies a[k] == b[k] by {
                                assert(a[k] == (out@[k].0@, out@[k].1.jv()));
                                assert(b[k] == (entries@[k].0@, entries@[k].1.jv()));
                            }
                            assert(a =~= b);
                        }
                    }
                }
                res
            },
        }
    }
}

/// Whether the IEEE-754 double with these bits is finite.
pub open spec fn spec_is_finite_bits(bits: u64) -> bool {
    (bits >> 52u64) & 0x7ff != 0x7ff
}

/// Whether the IEEE-754 double with these bits is finite (its exponent is not
/// all ones).
pub fn is_finite_bits(bits: u64) -> (res: bool)
    ensures
        res == spec_is_finite_bits(bits),
{
    (bits >> 52) & 0x7ff != 0x7ff
}

/// The keys of the object entries.
pub open spec fn entry_keys(entries: Seq<(String, JsonValue)>) -> Seq<Seq<char>> {
    entries.map_values(|e: (String, JsonValue)| e.0@)
}

/// Sets `key` to `value` in the object entries: an entry with that key gets
/// the new value in place, else the entry is appended.
pub fn object_insert(entries: &mut Vec<(String, JsonValue)>, key: String, value: JsonValue)
    ensures
        ({
            let old_keys = entry_keys(old(entries)@);
            if old_keys.contains(key@) {
                exists|i: int|
                    0 <= i < old(entries)@.len() && old_keys[i] == key@ && final(entries)@
                        == old(entries)@.update(i, (old(entries)@[i].0, value))
            } else {
                final(entries)@ == old(entries)@.push((key, value))
            }
        }),
{
    let mut i: usize = 0;
    while i < entries.len()
        invariant
            i <= entries.len(),
            entries@ == old(entries)@,
            forall|j: int| 0 <= j < i ==> entry_keys(entries@)[j] != key@,
        decreases entries.len() - i,
    {
        if entries[i].0 == key {
            proof {
                assert(entry_keys(old(entries)@)[i as int] == key@);
            }
            let k = entries[i].0.clone();
            let ghost before = entries@;
            entries.set(i, (k, value));
            proof {
                assert(entries@ =~= before.update(i as int, (before[i as int].0, value)));
            }
            return;
        }
        i = i + 1;
    }
    proof {
        assert(!entry_keys(old(entries)@).contains(key@)) by {
            if entry_keys(old(entries)@).contains(key@) {
                let j = choose|j: int|
                    0 <= j < entry_keys(old(entries)@).len() && entry_keys(old(entries)@)[j]
                        == key@;
                assert(entry_keys(entries@)[j] != key@);
            }
        }
    }
    entries.push((key, value));
}

} // verus!
