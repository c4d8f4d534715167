//! Conversions between strings and character vectors.

use vstd::prelude::*;

verus! {

/// `String::push` appends one character.
pub assume_specification[ std::string::String::push ](s: &mut std::string::String, ch: char)
    ensures
        final(s)@ == old(s)@.push(ch),
;

/// The error `String::from_utf8` gives for bytes that are not UTF-8.
#[verifier::external_type_specification]
#[verifier::external_body]
pub struct ExFromUtf8Error(std::string::FromUtf8Error);

/// `String::from_utf8` accepts exactly the valid UTF-8 byte sequences and
/// yields the characters they encode.
pub assume_specification[ std::string::String::from_utf8 ](vec: Vec<u8>) -> (res: Result<
    std::string::String,
    std::string::FromUtf8Error,
>)
    ensures
        match res {
            Ok(s) => vstd::utf8::valid_utf8(vec@) && s@ == vstd::utf8::decode_utf8(vec@),
            Err(_) => !vstd::utf8::valid_utf8(vec@),
        },
;

/// The string the UTF-8 bytes encode, or `None` when they are not UTF-8.
pub fn from_utf8_bytes(bytes: Vec<u8>) -> (res: Option<String>)
    ensures
        match res {
            Some(s) => vstd::utf8::valid_utf8(bytes@) && s@ == vstd::utf8::decode_utf8(bytes@),
            None => !vstd::utf8::valid_utf8(bytes@),
        },
{
    match std::string::String::from_utf8(bytes) {
        Ok(s) => Some(s),
        Err(_) => None,
    }
}

/// The characters of `s`, in order.
pub fn str_chars(s: &str) -> (res: Vec<char>)
    ensures
        res@ == s@,
{
    broadcast use vstd::string::group_string_axioms;
    let mut out: Vec<char> = Vec::new();
    for c in it: s.chars()
        invariant
            out@ == it.seq().take(it.index() as int),
            it.seq() == s@,
    {
        out.push(c);
    }
    out
}

/// The string made of the characters of `v`, in order.
pub fn chars_to_string(v: &[char]) -> (res: String)
    ensures
        res@ == v@,
{
    let mut out = String::new();
    let mut i: usize = 0;
    while i < v.len()
        invariant
            i <= v.len(),
            out@ == v@.take(i as int),
        decreases v.len() - i,
    {
        out.push(v[i]);
        assert(v@.take(i + 1) =~= v@.take(i as int).push(v@[i as int]));
        i = i + 1;
    }
    assert(v@.take(i as int) =~= v@);
    out
}


/// `char::from_u32` gives the character with that scalar value, and gives
/// one for every value that is a scalar (not above 0x10FFFF nor a surrogate).
pub assume_specification[ std::char::from_u32 ](i: u32) -> (res: Option<char>)
    ensures
        match res {
            Some(c) => c as u32 == i,
            None => !(i <= 0x10ffff && !(0xd800 <= i <= 0xdfff)),
        },
;

/// A UTF-16 unit that opens a surrogate pair.
pub open spec fn is_high_surrogate(u: u16) -> bool {
    0xd800 <= u <= 0xdbff
}

/// A UTF-16 unit that closes a surrogate pair.
pub open spec fn is_low_surrogate(u: u16) -> bool {
    0xdc00 <= u <= 0xdfff
}

/// The UTF-16 units of one character.
pub open spec fn char_units(c: char) -> Seq<u16> {
    let x = c as u32;
    if x < 0x10000 {
        seq![x as u16]
    } else {
        seq![
            (0xd800 + (x - 0x10000) / 0x400) as u16,
            (0xdc00 + (x - 0x10000) % 0x400) as u16,
        ]
    }
}

/// The UTF-16 units of a character sequence.
pub open spec fn utf16_of(s: Seq<char>) -> Seq<u16>
    decreases s.len(),
{
    if s.len() == 0 {
        Seq::empty()
    } else {
        char_units(s[0]) + utf16_of(s.drop_first())
    }
}

/// The characters that UTF-16 units decode to, each unpaired surrogate
/// becoming U+FFFD.
pub open spec fn utf16_decode(u: Seq<u16>) -> Seq<char>
    decreases u.len(),
{
    if u.len() == 0 {
        Seq::empty()
    } else if u.len() >= 2 && is_high_surrogate(u[0]) && is_low_surrogate(u[1]) {
        seq![(0x10000 + (u[0] - 0xd800) * 0x400 + (u[1] - 0xdc00)) as u32 as char] + utf16_decode(
            u.skip(2),
        )
    } else if is_high_surrogate(u[0]) || is_low_surrogate(u[0]) {
        seq!['\u{fffd}'] + utf16_decode(u.skip(1))
    } else {
        seq![(u[0] as u32) as char] + utf16_decode(u.skip(1))
    }
}

/// The units of a concatenation are the concatenated units.
pub proof fn lemma_utf16_of_concat(a: Seq<char>, b: Seq<char>)
    ensures
        utf16_of(a + b) == utf16_of(a) + utf16_of(b),
    decreases a.len(),
{
    if a.len() == 0 {
        assert(a + b =~= b);
        assert(utf16_of(a) + utf16_of(b) =~= utf16_of(b));
    } else {
        assert((a + b).drop_first() =~= a.drop_first() + b);
        assert((a + b)[0] == a[0]);
        lemma_utf16_of_concat(a.drop_first(), b);
        assert(utf16_of(a + b) =~= utf16_of(a) + utf16_of(b));
    }
}

proof fn lemma_char_units(c: char)
    ensures
        ({
            let u = char_units(c);
            let x = c as u32;
            &&& 1 <= u.len() <= 2
            &&& u.len() == 1 ==> !is_high_surrogate(u[0]) && !is_low_surrogate(u[0]) && (u[0] as u32) as char == c
            &&& u.len() == 2 ==> is_high_surrogate(u[0]) && is_low_surrogate(u[1]) && (0x10000 + (u[0] - 0xd800) * 0x400 + (u[1] - 0xdc00)) as u32 as char == c
        }),
{
    let x = c as u32;
    vstd::utf8::char_u32_cast(c, x);
    assert(x <= 0xd7ff || 0xe000 <= x <= 0x10ffff);
    if x >= 0x10000 {
        let y = x - 0x10000;
        assert(0 <= y / 0x400 <= 0x3ff);
        assert(0x400 * (y / 0x400) + y % 0x400 == y);
    }
}

/// Decoding the UTF-16 units of characters gives them back.
pub proof fn lemma_utf16_roundtrip(s: Seq<char>)
    ensures
        utf16_decode(utf16_of(s)) == s,
    decreases s.len(),
{
    if s.len() > 0 {
        let u = utf16_of(s);
        let cu = char_units(s[0]);
        let rest = utf16_of(s.drop_first());
        lemma_char_units(s[0]);
        lemma_utf16_roundtrip(s.drop_first());
        assert(u == cu + rest);
        assert(u.skip(cu.len() as int) =~= rest);
        if cu.len() == 1 {
            assert(u[0] == cu[0]);
            assert(u.skip(1) =~= rest);
        } else {
            assert(u[0] == cu[0] && u[1] == cu[1]);
            assert(u.skip(2) =~= rest);
        }
        assert(seq![s[0]] + s.drop_first() =~= s);
    }
}

/// Well-formed UTF-16: every high surrogate is followed by a low one, and
/// every low surrogate follows a high one.
pub open spec fn wf16(u: Seq<u16>) -> bool {
    &&& forall|i: int| 0 <= i < u.len() && is_high_surrogate(#[trigger] u[i]) ==> i + 1 < u.len() && is_low_surrogate(u[i + 1])
    &&& forall|i: int| 0 <= i < u.len() && is_low_surrogate(#[trigger] u[i]) ==> i > 0 && is_high_surrogate(u[i - 1])
}

/// The UTF-16 units of characters are well formed.
pub proof fn lemma_utf16_wf(s: Seq<char>)
    ensures
        wf16(utf16_of(s)),
    decreases s.len(),
{
    if s.len() > 0 {
        let cu = char_units(s[0]);
        let r = utf16_of(s.drop_first());
        let u = utf16_of(s);
        lemma_char_units(s[0]);
        lemma_utf16_wf(s.drop_first());
        assert(u == cu + r);
        let c = cu.len() as int;
        assert forall|i: int| 0 <= i < u.len() && is_high_surrogate(#[trigger] u[i]) implies i + 1 < u.len() && is_low_surrogate(u[i + 1]) by {
            if i >= c {
                assert(u[i] == r[i - c]);
                assert(u[i + 1] == r[i - c + 1]);
            } else if c == 2 {
                assert(i == 0);
            }
        }
        assert forall|i: int| 0 <= i < u.len() && is_low_surrogate(#[trigger] u[i]) implies i > 0 && is_high_surrogate(u[i - 1]) by {
            if i >= c {
                assert(u[i] == r[i - c]);
                if i > c {
                    assert(u[i - 1] == r[i - c - 1]);
                }
            }
        }
    }
}

/// Decoding splits at any position that does not fall inside a surrogate
/// pair.
pub proof fn lemma_decode_split(u: Seq<u16>, k: int)
    requires
        0 <= k <= u.len(),
        !(0 < k < u.len() && is_high_surrogate(u[k - 1]) && is_low_surrogate(u[k])),
    ensures
        utf16_decode(u.take(k)) + utf16_decode(u.skip(k)) == utf16_decode(u),
    decreases u.len(),
{
    if k == 0 {
        assert(u.take(0) =~= Seq::<u16>::empty());
        assert(u.skip(0) =~= u);
        assert(utf16_decode(Seq::<u16>::empty()) + utf16_decode(u) =~= utf16_decode(u));
    } else if u.len() >= 2 && is_high_surrogate(u[0]) && is_low_surrogate(u[1]) {
        let t = u.take(k);
        lemma_decode_split(u.skip(2), k - 2);
        assert(t[0] == u[0] && t[1] == u[1]);
        assert(t.skip(2) =~= u.skip(2).take(k - 2));
        assert(u.skip(2).skip(k - 2) =~= u.skip(k));
    } else {
        let t = u.take(k);
        lemma_decode_split(u.skip(1), k - 1);
        assert(t[0] == u[0]);
        if k >= 2 {
            assert(t[1] == u[1]);
        }
        assert(t.skip(1) =~= u.skip(1).take(k - 1));
        assert(u.skip(1).skip(k - 1) =~= u.skip(k));
        if k == 1 {
            assert(u.skip(1).take(0) =~= Seq::<u16>::empty());
        }
    }
}

/// The characters split where their UTF-16 units do, at any position that
/// does not follow a high surrogate.
pub proof fn lemma_split_chars(s: Seq<char>, k: int)
    requires
        0 <= k <= utf16_of(s).len(),
        k > 0 ==> !is_high_surrogate(utf16_of(s)[k - 1]),
    ensures
        utf16_decode(utf16_of(s).take(k)) + utf16_decode(utf16_of(s).skip(k)) == s,
{
    lemma_decode_split(utf16_of(s), k);
    lemma_utf16_roundtrip(s);
}

/// Decoding keeps the number of UTF-16 units: a pair gives a character of
/// two units, any other unit a character of one.
pub proof fn lemma_decode_units_len(u: Seq<u16>)
    ensures
        utf16_of(utf16_decode(u)).len() == u.len(),
    decreases u.len(),
{
    if u.len() > 0 {
        let d = utf16_decode(u);
        if u.len() >= 2 && is_high_surrogate(u[0]) && is_low_surrogate(u[1]) {
            let c = (0x10000 + (u[0] - 0xd800) * 0x400 + (u[1] - 0xdc00)) as u32 as char;
            lemma_decode_units_len(u.skip(2));
            assert(d == seq![c] + utf16_decode(u.skip(2)));
            lemma_utf16_of_concat(seq![c], utf16_decode(u.skip(2)));
            let x = (0x10000 + (u[0] - 0xd800) * 0x400 + (u[1] - 0xdc00)) as u32;
            assert(0x10000 <= x <= 0x10ffff);
            vstd::utf8::char_u32_cast(c, x);
            assert(seq![c].drop_first() =~= Seq::<char>::empty());
            assert(seq![c][0] == c);
            assert(utf16_of(Seq::<char>::empty()) =~= Seq::<u16>::empty());
            assert(utf16_of(seq![c]) =~= char_units(c));
        } else {
            let c = if is_high_surrogate(u[0]) || is_low_surrogate(u[0]) {
                '\u{fffd}'
            } else {
                (u[0] as u32) as char
            };
            lemma_decode_units_len(u.skip(1));
            assert(d == seq![c] + utf16_decode(u.skip(1)));
            lemma_utf16_of_concat(seq![c], utf16_decode(u.skip(1)));
            if !(is_high_surrogate(u[0]) || is_low_surrogate(u[0])) {
                vstd::utf8::char_u32_cast(c, u[0] as u32);
            }
            assert((c as u32) < 0x10000);
            assert(seq![c].drop_first() =~= Seq::<char>::empty());
            assert(seq![c][0] == c);
            assert(utf16_of(Seq::<char>::empty()) =~= Seq::<u16>::empty());
            assert(utf16_of(seq![c]) =~= char_units(c));
        }
    }
}

/// No unit is a surrogate: every unit is a character of its own.
pub open spec fn no_surrogates(u: Seq<u16>) -> bool {
    forall|i: int| 0 <= i < u.len() ==> !is_high_surrogate(#[trigger] u[i]) && !is_low_surrogate(u[i])
}

/// The characters of units without surrogates, one per unit.
pub open spec fn bmp_chars(u: Seq<u16>) -> Seq<char> {
    Seq::new(u.len(), |i: int| (u[i] as u32) as char)
}

/// Units without surrogates decode one character per unit, and encode back.
pub proof fn lemma_bmp_decode(u: Seq<u16>)
    requires
        no_surrogates(u),
    ensures
        utf16_decode(u) == bmp_chars(u),
        utf16_of(bmp_chars(u)) == u,
    decreases u.len(),
{
    if u.len() > 0 {
        let r = u.skip(1);
        assert(no_surrogates(r)) by {
            assert forall|i: int| 0 <= i < r.len() implies !is_high_surrogate(#[trigger] r[i]) && !is_low_surrogate(r[i]) by {
                assert(r[i] == u[i + 1]);
            }
        }
        lemma_bmp_decode(r);
        assert(!is_high_surrogate(u[0]) && !is_low_surrogate(u[0]));
        assert(bmp_chars(u) =~= seq![(u[0] as u32) as char] + bmp_chars(r));
        let c = (u[0] as u32) as char;
        vstd::utf8::char_u32_cast(c, u[0] as u32);
        assert(bmp_chars(u)[0] == c);
        assert(bmp_chars(u).drop_first() =~= bmp_chars(r));
        assert(char_units(c) =~= seq![u[0]]);
        assert(utf16_of(bmp_chars(u)) =~= u);
    }
}

/// Characters of units without surrogates are equal exactly when the units
/// are.
pub proof fn lemma_bmp_chars_eq(a: Seq<u16>, b: Seq<u16>)
    requires
        no_surrogates(a),
        no_surrogates(b),
    ensures
        (bmp_chars(a) == bmp_chars(b)) == (a == b),
{
    if bmp_chars(a) == bmp_chars(b) {
        lemma_bmp_decode(a);
        lemma_bmp_decode(b);
    }
}

/// The UTF-16 units of `s`.
pub fn utf16_units(s: &str) -> (res: Vec<u16>)
    ensures
        res@ == utf16_of(s@),
{
    let chars = str_chars(s);
    let mut out: Vec<u16> = Vec::new();
    let mut i: usize = 0;
    while i < chars.len()
        invariant
            i <= chars.len(),
            out@ == utf16_of(chars@.take(i as int)),
        decreases chars.len() - i,
    {
        let c = chars[i];
        let x = c as u32;
        let ghost o0 = out@;
        if x < 0x10000 {
            out.push(x as u16);
        } else {
            let y = x - 0x10000;
            out.push((0xd800 + y / 0x400) as u16);
            out.push((0xdc00 + y % 0x400) as u16);
        }
        proof {
            assert(out@ =~= o0 + char_units(c));
            assert(chars@.take(i + 1) =~= chars@.take(i as int) + seq![c]);
            lemma_utf16_of_concat(chars@.take(i as int), seq![c]);
            assert(seq![c].drop_first() =~= Seq::<char>::empty());
            assert(seq![c][0] == c);
            assert(utf16_of(Seq::<char>::empty()) =~= Seq::<u16>::empty());
            assert(utf16_of(seq![c]) =~= char_units(c));
        }
        i = i + 1;
    }
    assert(chars@.take(i as int) =~= chars@);
    out
}

/// The string that UTF-16 units decode to, unpaired surrogates becoming
/// U+FFFD.
pub fn from_utf16(units: &[u16]) -> (res: String)
    ensures
        res@ == utf16_decode(units@),
{
    let mut out = String::new();
    let mut i: usize = 0;
    assert(units@.skip(0) =~= units@);
    while i < units.len()
        invariant
            i <= units.len(),
            out@ + utf16_decode(units@.skip(i as int)) == utf16_decode(units@),
        decreases units.len() - i,
    {
        let u = units[i];
        let ghost rest = units@.skip(i as int);
        if i + 1 < units.len() && 0xd800 <= u && u <= 0xdbff && 0xdc00 <= units[i + 1] && units[i
            + 1] <= 0xdfff {
            let x = 0x10000u32 + ((u - 0xd800) as u32) * 0x400 + ((units[i + 1] - 0xdc00) as u32);
            let c = std::char::from_u32(x).unwrap();
            proof {
                vstd::utf8::char_u32_cast(c, x);
                assert(rest[0] == u && rest[1] == units@[i + 1]);
                assert(rest.skip(2) =~= units@.skip(i + 2));
            }
            let ghost o0 = out@;
            out.push(c);
            proof {
                assert(out@ + utf16_decode(units@.skip(i + 2)) =~= o0 + utf16_decode(rest));
            }
            i = i + 2;
        } else {
            let c = if 0xd800 <= u && u <= 0xdfff {
                '\u{fffd}'
            } else {
                std::char::from_u32(u as u32).unwrap()
            };
            proof {
                if !(0xd800 <= u && u <= 0xdfff) {
                    vstd::utf8::char_u32_cast(c, u as u32);
                }
                assert(rest[0] == u);
                assert(rest.skip(1) =~= units@.skip(i + 1));
            }
            let ghost o0 = out@;
            out.push(c);
            proof {
                assert(out@ + utf16_decode(units@.skip(i + 1)) =~= o0 + utf16_decode(rest));
            }
            i = i + 1;
        }
    }
    assert(out@ + Seq::<char>::empty() =~= out@);
    out
}

/// The decimal digit character for `d` (below ten).
pub open spec fn digit_char(d: nat) -> char {
    if d == 0 {
        '0'
    } else if d == 1 {
        '1'
    } else if d == 2 {
        '2'
    } else if d == 3 {
        '3'
    } else if d == 4 {
        '4'
    } else if d == 5 {
        '5'
    } else if d == 6 {
        '6'
    } else if d == 7 {
        '7'
    } else if d == 8 {
        '8'
    } else {
        '9'
    }
}

/// The decimal numeral of `n`, without leading zeros.
pub open spec fn decimal(n: nat) -> Seq<char>
    decreases n,
{
    if n < 10 {
        seq![digit_char(n)]
    } else {
        decimal(n / 10).push(digit_char(n % 10))
    }
}

fn digit_of(d: u64) -> (res: char)
    requires
        d < 10,
    ensures
        res == digit_char(d as nat),
{
    if d == 0 {
        '0'
    } else if d == 1 {
        '1'
    } else if d == 2 {
        '2'
    } else if d == 3 {
        '3'
    } else if d == 4 {
        '4'
    } else if d == 5 {
        '5'
    } else if d == 6 {
        '6'
    } else if d == 7 {
        '7'
    } else if d == 8 {
        '8'
    } else {
        '9'
    }
}

/// Appends the decimal numeral of `n`.
pub fn push_decimal(out: &mut String, n: u64)
    ensures
        final(out)@ == old(out)@ + decimal(n as nat),
    decreases n,
{
    if n >= 10 {
        push_decimal(out, n / 10);
    }
    let c = digit_of(n % 10);
    out.push(c);
    proof {
        if n >= 10 {
            assert(decimal(n as nat) == decimal((n / 10) as nat).push(c));
        } else {
            assert(decimal(n as nat) == seq![c]);
        }
        assert(out@ =~= old(out)@ + decimal(n as nat));
    }
}
} // verus!
