//! JSON Pointer (RFC 6901) components: escaping, parsing and formatting.

use vstd::prelude::*;
use crate::text::{chars_to_string, str_chars};

verus! {

/// Failures of the strict pointer parser.
#[derive(Debug, Clone, Copy, PartialEq, Eq, Structural)]
pub enum JsonPointerError {
    NotAbsolute,
}

impl JsonPointerError {
    /// Human-readable description of the error.
    pub fn message(&self) -> (res: &'static str)
        ensures
            res@ == "json pointer must be absolute or empty"@,
    {
        "json pointer must be absolute or empty"
    }
}

/// Replaces, left to right and without overlap, each `a b` pair by `to`.
pub open spec fn replace_pair(s: Seq<char>, a: char, b: char, to: char) -> Seq<char>
    decreases s.len(),
{
    if s.len() < 2 {
        s
    } else if s[0] == a && s[1] == b {
        seq![to] + replace_pair(s.skip(2), a, b, to)
    } else {
        seq![s[0]] + replace_pair(s.drop_first(), a, b, to)
    }
}

/// Replaces each `c` by the two characters `x y`.
pub open spec fn replace_char(s: Seq<char>, c: char, x: char, y: char) -> Seq<char>
    decreases s.len(),
{
    if s.len() == 0 {
        s
    } else if s[0] == c {
        seq![x, y] + replace_char(s.drop_first(), c, x, y)
    } else {
        seq![s[0]] + replace_char(s.drop_first(), c, x, y)
    }
}

/// RFC 6901 unescaping: `~1` becomes `/`, then `~0` becomes `~`.
pub open spec fn spec_unescape(s: Seq<char>) -> Seq<char> {
    replace_pair(replace_pair(s, '~', '1', '/'), '~', '0', '~')
}

/// RFC 6901 escaping: `~` becomes `~0`, then `/` becomes `~1`.
pub open spec fn spec_escape(s: Seq<char>) -> Seq<char> {
    replace_char(replace_char(s, '~', '~', '0'), '/', '~', '1')
}

/// The pieces of `s` between occurrences of `sep` (always at least one).
pub open spec fn split_on(s: Seq<char>, sep: char) -> Seq<Seq<char>>
    decreases s.len(),
{
    if s.len() == 0 {
        seq![Seq::empty()]
    } else {
        let r = split_on(s.drop_last(), sep);
        if s.last() == sep {
            r.push(Seq::empty())
        } else {
            r.update(r.len() - 1, r.last().push(s.last()))
        }
    }
}

/// The components a pointer denotes: `None` for a nonempty pointer that does
/// not start with `/`.
pub open spec fn spec_parse_json_pointer(p: Seq<char>) -> Option<Seq<Seq<char>>> {
    if p.len() == 0 {
        Some(Seq::empty())
    } else if p[0] != '/' {
        None
    } else {
        Some(split_on(p.drop_first(), '/').map_values(|c: Seq<char>| spec_unescape(c)))
    }
}

/// The pointer text for the components: `/` before each escaped component.
pub open spec fn spec_format_json_pointer(path: Seq<Seq<char>>) -> Seq<char>
    decreases path.len(),
{
    if path.len() == 0 {
        Seq::empty()
    } else {
        spec_format_json_pointer(path.drop_last()) + seq!['/'] + spec_escape(path.last())
    }
}

proof fn lemma_replace_pair_no_a(s: Seq<char>, a: char, b: char, to: char)
    requires
        !s.contains(a),
    ensures
        replace_pair(s, a, b, to) == s,
    decreases s.len(),
{
    if s.len() >= 2 {
        assert(s[0] != a);
        assert(!s.drop_first().contains(a)) by {
            if s.drop_first().contains(a) {
                let k = choose|k: int| 0 <= k < s.drop_first().len() && s.drop_first()[k] == a;
                assert(s[k + 1] == a);
            }
        }
        lemma_replace_pair_no_a(s.drop_first(), a, b, to);
        assert(seq![s[0]] + s.drop_first() =~= s);
    }
}

proof fn lemma_replace_char_no_c(s: Seq<char>, c: char, x: char, y: char)
    requires
        !s.contains(c),
    ensures
        replace_char(s, c, x, y) == s,
    decreases s.len(),
{
    if s.len() > 0 {
        assert(s[0] != c);
        assert(!s.drop_first().contains(c)) by {
            if s.drop_first().contains(c) {
                let k = choose|k: int| 0 <= k < s.drop_first().len() && s.drop_first()[k] == c;
                assert(s[k + 1] == c);
            }
        }
        lemma_replace_char_no_c(s.drop_first(), c, x, y);
        assert(seq![s[0]] + s.drop_first() =~= s);
    }
}

/// Escaping with `~` kept but `/` already turned into `~1`.
spec fn half_unescaped(s: Seq<char>) -> Seq<char>
    decreases s.len(),
{
    if s.len() == 0 {
        s
    } else if s[0] == '~' {
        seq!['~', '0'] + half_unescaped(s.drop_first())
    } else {
        seq![s[0]] + half_unescaped(s.drop_first())
    }
}

proof fn lemma_escape_first(s: Seq<char>)
    requires
        s.len() > 0,
    ensures
        spec_escape(s) == (if s[0] == '~' {
            seq!['~', '0']
        } else if s[0] == '/' {
            seq!['~', '1']
        } else {
            seq![s[0]]
        }) + spec_escape(s.drop_first()),
{
    let t = replace_char(s, '~', '~', '0');
    let tr = replace_char(s.drop_first(), '~', '~', '0');
    if s[0] == '~' {
        assert(t == seq!['~', '0'] + tr);
        let t1 = seq!['0'] + tr;
        assert(t.drop_first() =~= t1);
        assert(t1.drop_first() =~= tr);
        assert(replace_char(t1, '/', '~', '1') == seq!['0'] + replace_char(tr, '/', '~', '1'));
        assert(replace_char(t, '/', '~', '1') == seq!['~'] + replace_char(t1, '/', '~', '1'));
        assert(spec_escape(s) =~= seq!['~', '0'] + spec_escape(s.drop_first()));
    } else if s[0] == '/' {
        assert(t == seq![s[0]] + tr);
        assert(t.drop_first() =~= tr);
        assert(spec_escape(s) =~= seq!['~', '1'] + spec_escape(s.drop_first()));
    } else {
        assert(t == seq![s[0]] + tr);
        assert(t.drop_first() =~= tr);
        assert(spec_escape(s) =~= seq![s[0]] + spec_escape(s.drop_first()));
    }
}

proof fn lemma_unescape_step1(s: Seq<char>)
    ensures
        replace_pair(spec_escape(s), '~', '1', '/') == half_unescaped(s),
    decreases s.len(),
{
    if s.len() > 0 {
        lemma_escape_first(s);
        lemma_unescape_step1(s.drop_first());
        let r = spec_escape(s.drop_first());
        if s[0] == '~' {
            let e = seq!['~', '0'] + r;
            let e1 = seq!['0'] + r;
            assert(e.drop_first() =~= e1);
            assert(e1.drop_first() =~= r);
            if r.len() == 0 {
                assert(replace_pair(e1, '~', '1', '/') == e1);
                assert(replace_pair(r, '~', '1', '/') == r);
                assert(e1 =~= seq!['0'] + r);
            } else {
                assert(replace_pair(e1, '~', '1', '/') == seq!['0'] + replace_pair(r, '~', '1', '/'));
            }
            assert(replace_pair(e, '~', '1', '/') == seq!['~'] + replace_pair(e1, '~', '1', '/'));
            assert(replace_pair(e, '~', '1', '/') =~= seq!['~', '0'] + replace_pair(r, '~', '1', '/'));
        } else if s[0] == '/' {
            let e = seq!['~', '1'] + r;
            assert(e.skip(2) =~= r);
        } else {
            let e = seq![s[0]] + r;
            assert(e.drop_first() =~= r);
        }
    }
}

proof fn lemma_unescape_step2(s: Seq<char>)
    ensures
        replace_pair(half_unescaped(s), '~', '0', '~') == s,
    decreases s.len(),
{
    if s.len() > 0 {
        lemma_unescape_step2(s.drop_first());
        let r = half_unescaped(s.drop_first());
        if s[0] == '~' {
            let e = seq!['~', '0'] + r;
            assert(e.skip(2) =~= r);
        } else {
            let e = seq![s[0]] + r;
            assert(e.drop_first() =~= r);
        }
        assert(seq![s[0]] + s.drop_first() =~= s);
    }
}

/// Unescaping undoes escaping, for every component.
pub proof fn lemma_unescape_escape(s: Seq<char>)
    ensures
        spec_unescape(spec_escape(s)) == s,
{
    lemma_unescape_step1(s);
    lemma_unescape_step2(s);
}

/// An escaped component holds no `/`.
pub proof fn lemma_escape_no_slash(s: Seq<char>)
    ensures
        !spec_escape(s).contains('/'),
    decreases s.len(),
{
    if s.len() > 0 {
        lemma_escape_first(s);
        lemma_escape_no_slash(s.drop_first());
        let r = spec_escape(s.drop_first());
        let h = if s[0] == '~' {
            seq!['~', '0']
        } else if s[0] == '/' {
            seq!['~', '1']
        } else {
            seq![s[0]]
        };
        assert forall|k: int| 0 <= k < (h + r).len() implies (h + r)[k] != '/' by {
            if k >= h.len() {
                assert((h + r)[k] == r[k - h.len()]);
            }
        }
    }
}

proof fn lemma_split_append_plain(a: Seq<char>, b: Seq<char>, sep: char)
    requires
        !b.contains(sep),
    ensures
        split_on(a + b, sep) == split_on(a, sep).update(
            split_on(a, sep).len() - 1,
            split_on(a, sep).last() + b,
        ),
        split_on(a, sep).len() >= 1,
    decreases b.len(),
{
    lemma_split_nonempty(a, sep);
    if b.len() == 0 {
        assert(a + b =~= a);
        assert(split_on(a, sep).last() + b =~= split_on(a, sep).last());
        assert(split_on(a, sep).update(split_on(a, sep).len() - 1, split_on(a, sep).last())
            =~= split_on(a, sep));
    } else {
        let b0 = b.drop_last();
        assert(!b0.contains(sep)) by {
            if b0.contains(sep) {
                let k = choose|k: int| 0 <= k < b0.len() && b0[k] == sep;
                assert(b[k] == sep);
            }
        }
        lemma_split_append_plain(a, b0, sep);
        assert((a + b).drop_last() =~= a + b0);
        assert((a + b).last() == b.last());
        assert(b.last() != sep) by {
            assert(b[b.len() - 1] == b.last());
        }
        lemma_split_nonempty(a + b0, sep);
        let r = split_on(a, sep);
        let m = split_on(a + b0, sep);
        assert(m == r.update(r.len() - 1, r.last() + b0));
        assert(m.len() == r.len());
        assert(m.last() == r.last() + b0);
        assert(split_on(a + b, sep) == m.update(m.len() - 1, m.last().push(b.last())));
        assert((r.last() + b0).push(b.last()) =~= r.last() + b);
        assert(split_on(a + b, sep) =~= r.update(r.len() - 1, r.last() + b));
    }
}

proof fn lemma_split_nonempty(s: Seq<char>, sep: char)
    ensures
        split_on(s, sep).len() >= 1,
    decreases s.len(),
{
    if s.len() > 0 {
        lemma_split_nonempty(s.drop_last(), sep);
    }
}

proof fn lemma_split_format(path: Seq<Seq<char>>)
    requires
        path.len() > 0,
    ensures
        spec_format_json_pointer(path).len() > 0,
        spec_format_json_pointer(path)[0] == '/',
        split_on(spec_format_json_pointer(path).drop_first(), '/') == path.map_values(
            |c: Seq<char>| spec_escape(c),
        ),
    decreases path.len(),
{
    let init = path.drop_last();
    let e = spec_escape(path.last());
    lemma_escape_no_slash(path.last());
    let f = spec_format_json_pointer(path);
    let fi = spec_format_json_pointer(init);
    assert(f == fi + seq!['/'] + e);
    if init.len() == 0 {
        assert(fi.len() == 0);
        assert(f.drop_first() =~= Seq::<char>::empty() + e);
        lemma_split_append_plain(Seq::<char>::empty(), e, '/');
        assert(split_on(Seq::<char>::empty(), '/') == seq![Seq::<char>::empty()]);
        assert(Seq::<char>::empty() + e =~= e);
        assert(split_on(f.drop_first(), '/') =~= seq![e]);
        assert(path.map_values(|c: Seq<char>| spec_escape(c)) =~= seq![e]);
    } else {
        lemma_split_format(init);
        let fd = fi.drop_first() + seq!['/'];
        assert(f.drop_first() =~= fd + e);
        lemma_split_append_plain(fd, e, '/');
        assert(fd.drop_last() =~= fi.drop_first());
        assert(fd.last() == '/');
        let r = split_on(fi.drop_first(), '/');
        assert(split_on(fd, '/') == r.push(Seq::empty()));
        assert(Seq::<char>::empty() + e =~= e);
        assert(split_on(f.drop_first(), '/') =~= r.push(e));
        assert(path.map_values(|c: Seq<char>| spec_escape(c)) =~= init.map_values(
            |c: Seq<char>| spec_escape(c),
        ).push(e));
    }
}

/// Parsing a formatted pointer gives back its components, for every path.
pub proof fn lemma_parse_format_roundtrip(path: Seq<Seq<char>>)
    ensures
        spec_parse_json_pointer(spec_format_json_pointer(path)) == Some(path),
{
    if path.len() == 0 {
        assert(spec_format_json_pointer(path).len() == 0);
        assert(spec_parse_json_pointer(Seq::<char>::empty()) == Some(Seq::<Seq<char>>::empty()));
        assert(path =~= Seq::<Seq<char>>::empty());
    } else {
        lemma_split_format(path);
        let parts = split_on(spec_format_json_pointer(path).drop_first(), '/');
        assert forall|i: int| 0 <= i < path.len() implies spec_unescape(parts[i]) == path[i] by {
            lemma_unescape_escape(path[i]);
        }
        assert(parts.map_values(|c: Seq<char>| spec_unescape(c)) =~= path);
    }
}

fn exec_replace_pair(s: &Vec<char>, a: char, b: char, to: char) -> (res: Vec<char>)
    ensures
        res@ == replace_pair(s@, a, b, to),
{
    let mut out: Vec<char> = Vec::new();
    let mut i: usize = 0;
    assert(s@.skip(0) =~= s@);
    assert(out@ + replace_pair(s@, a, b, to) =~= replace_pair(s@, a, b, to));
    while i < s.len()
        invariant
            i <= s.len(),
            out@ + replace_pair(s@.skip(i as int), a, b, to) == replace_pair(s@, a, b, to),
        decreases s.len() - i,
    {
        let ghost rest = s@.skip(i as int);
        if i + 1 < s.len() && s[i] == a && s[i + 1] == b {
            proof {
                assert(rest.skip(2) =~= s@.skip(i + 2));
                assert(out@.push(to) + replace_pair(s@.skip(i + 2), a, b, to) =~= out@
                    + replace_pair(rest, a, b, to));
            }
            out.push(to);
            i = i + 2;
        } else {
            proof {
                assert(rest.drop_first() =~= s@.skip(i + 1));
                if rest.len() < 2 {
                    assert(rest.len() == 1);
                    assert(s@.skip(i + 1).len() == 0);
                    assert(replace_pair(rest, a, b, to) == rest);
                    assert(rest =~= seq![s@[i as int]] + s@.skip(i + 1));
                }
                assert(out@.push(s@[i as int]) + replace_pair(s@.skip(i + 1), a, b, to) =~= out@
                    + replace_pair(rest, a, b, to));
            }
            out.push(s[i]);
            i = i + 1;
        }
    }
    assert(s@.skip(i as int) =~= Seq::<char>::empty());
    assert(out@ + Seq::<char>::empty() =~= out@);
    out
}

fn exec_replace_char(s: &Vec<char>, c: char, x: char, y: char) -> (res: Vec<char>)
    ensures
        res@ == replace_char(s@, c, x, y),
{
    let mut out: Vec<char> = Vec::new();
    let mut i: usize = 0;
    assert(s@.skip(0) =~= s@);
    assert(out@ + replace_char(s@, c, x, y) =~= replace_char(s@, c, x, y));
    while i < s.len()
        invariant
            i <= s.len(),
            out@ + replace_char(s@.skip(i as int), c, x, y) == replace_char(s@, c, x, y),
        decreases s.len() - i,
    {
        let ghost rest = s@.skip(i as int);
        proof {
            assert(rest.drop_first() =~= s@.skip(i + 1));
        }
        if s[i] == c {
            proof {
                assert(out@.push(x).push(y) + replace_char(s@.skip(i + 1), c, x, y) =~= out@
                    + replace_char(rest, c, x, y));
            }
            out.push(x);
            out.push(y);
        } else {
            proof {
                assert(out@.push(s@[i as int]) + replace_char(s@.skip(i + 1), c, x, y) =~= out@
                    + replace_char(rest, c, x, y));
            }
            out.push(s[i]);
        }
        i = i + 1;
    }
    assert(s@.skip(i as int) =~= Seq::<char>::empty());
    assert(out@ + Seq::<char>::empty() =~= out@);
    out
}

fn contains_char(s: &Vec<char>, c: char) -> (res: bool)
    ensures
        res == s@.contains(c),
{
    let mut i: usize = 0;
    while i < s.len()
        invariant
            i <= s.len(),
            forall|k: int| 0 <= k < i ==> s@[k] != c,
        decreases s.len() - i,
    {
        if s[i] == c {
            return true;
        }
        i = i + 1;
    }
    false
}

pub(crate) fn unescape_chars(s: &Vec<char>) -> (res: Vec<char>)
    ensures
        res@ == spec_unescape(s@),
{
    if !contains_char(s, '~') {
        proof {
            lemma_replace_pair_no_a(s@, '~', '1', '/');
            lemma_replace_pair_no_a(s@, '~', '0', '~');
        }
        return s.clone();
    }
    let t = exec_replace_pair(s, '~', '1', '/');
    exec_replace_pair(&t, '~', '0', '~')
}

fn escape_chars(s: &Vec<char>) -> (res: Vec<char>)
    ensures
        res@ == spec_escape(s@),
{
    if !contains_char(s, '/') && !contains_char(s, '~') {
        proof {
            lemma_replace_char_no_c(s@, '~', '~', '0');
            lemma_replace_char_no_c(s@, '/', '~', '1');
        }
        return s.clone();
    }
    let t = exec_replace_char(s, '~', '~', '0');
    exec_replace_char(&t, '/', '~', '1')
}

/// Unescapes one JSON Pointer token component.
pub fn unescape_component(component: &str) -> (res: String)
    ensures
        res@ == spec_unescape(component@),
{
    let v = str_chars(component);
    chars_to_string(unescape_chars(&v).as_slice())
}

/// Escapes one JSON Pointer token component.
pub fn escape_component(component: &str) -> (res: String)
    ensures
        res@ == spec_escape(component@),
{
    let v = str_chars(component);
    chars_to_string(escape_chars(&v).as_slice())
}

/// Splits `s` at every `sep`.
pub(crate) fn split_chars(s: &Vec<char>, sep: char) -> (res: Vec<Vec<char>>)
    ensures
        res@.map_values(|v: Vec<char>| v@) == split_on(s@, sep),
{
    let mut done: Vec<Vec<char>> = Vec::new();
    let mut cur: Vec<char> = Vec::new();
    let mut i: usize = 0;
    while i < s.len()
        invariant
            i <= s.len(),
            done@.map_values(|v: Vec<char>| v@).push(cur@) == split_on(s@.take(i as int), sep),
        decreases s.len() - i,
    {
        let ghost prev = split_on(s@.take(i as int), sep);
        proof {
            assert(s@.take(i + 1).drop_last() =~= s@.take(i as int));
            assert(s@.take(i + 1).last() == s@[i as int]);
        }
        if s[i] == sep {
            let piece = cur;
            let ghost d0 = done@;
            done.push(piece);
            cur = Vec::new();
            proof {
                assert(done@.map_values(|v: Vec<char>| v@) =~= d0.map_values(|v: Vec<char>| v@).push(
                    piece@,
                ));
                assert(done@.map_values(|v: Vec<char>| v@).push(cur@) =~= prev.push(
                    Seq::<char>::empty(),
                ));
            }
        } else {
            cur.push(s[i]);
            proof {
                assert(done@.map_values(|v: Vec<char>| v@).push(cur@) =~= prev.update(
                    prev.len() - 1,
                    prev.last().push(s@[i as int]),
                ));
            }
        }
        i = i + 1;
    }
    let ghost d0 = done@;
    done.push(cur);
    proof {
        assert(s@.take(i as int) =~= s@);
        assert(done@.map_values(|v: Vec<char>| v@) =~= d0.map_values(|v: Vec<char>| v@).push(
            cur@,
        ));
    }
    done
}

fn parse_chars(p: &Vec<char>) -> (res: Result<Vec<String>, JsonPointerError>)
    ensures
        match res {
            Ok(v) => spec_parse_json_pointer(p@) == Some(v@.map_values(|s: String| s@)),
            Err(e) => spec_parse_json_pointer(p@) is None && e == JsonPointerError::NotAbsolute,
        },
{
    if p.len() == 0 {
        let out: Vec<String> = Vec::new();
        assert(out@.map_values(|s: String| s@) =~= Seq::<Seq<char>>::empty());
        return Ok(out);
    }
    if p[0] != '/' {
        return Err(JsonPointerError::NotAbsolute);
    }
    let mut rest: Vec<char> = Vec::new();
    let mut i: usize = 1;
    while i < p.len()
        invariant
            1 <= i <= p.len(),
            rest@ == p@.subrange(1, i as int),
        decreases p.len() - i,
    {
        rest.push(p[i]);
        assert(p@.subrange(1, i + 1) =~= p@.subrange(1, i as int).push(p@[i as int]));
        i = i + 1;
    }
    assert(rest@ =~= p@.drop_first());
    let parts = split_chars(&rest, '/');
    let ghost pieces = split_on(rest@, '/');
    let mut out: Vec<String> = Vec::new();
    let mut k: usize = 0;
    while k < parts.len()
        invariant
            k <= parts.len(),
            parts@.map_values(|v: Vec<char>| v@) == pieces,
            out@.map_values(|s: String| s@) == pieces.take(k as int).map_values(
                |c: Seq<char>| spec_unescape(c),
            ),
        decreases parts.len() - k,
    {
        let u = unescape_chars(&parts[k]);
        let s = chars_to_string(u.as_slice());
        let ghost o0 = out@;
        out.push(s);
        proof {
            assert(parts@[k as int]@ == pieces[k as int]);
            assert(out@.map_values(|s: String| s@) =~= o0.map_values(|s: String| s@).push(
                spec_unescape(pieces[k as int]),
            ));
            assert(pieces.take(k + 1).map_values(|c: Seq<char>| spec_unescape(c)) =~= pieces.take(
                k as int,
            ).map_values(|c: Seq<char>| spec_unescape(c)).push(spec_unescape(pieces[k as int])));
        }
        k = k + 1;
    }
    assert(pieces.take(k as int) =~= pieces);
    Ok(out)
}

/// Parses an RFC 6901 pointer (empty, or starting with `/`) into its
/// unescaped components.
pub fn parse_json_pointer(pointer: &str) -> (res: Result<Vec<String>, JsonPointerError>)
    ensures
        match res {
            Ok(v) => spec_parse_json_pointer(pointer@) == Some(v@.map_values(|s: String| s@)),
            Err(e) => spec_parse_json_pointer(pointer@) is None && e == JsonPointerError::NotAbsolute,
        },
{
    let v = str_chars(pointer);
    parse_chars(&v)
}

/// Parses a pointer, reading one that does not start with `/` as if it did.
pub fn parse_json_pointer_relaxed(pointer: &str) -> (res: Result<Vec<String>, JsonPointerError>)
    ensures
        res is Ok,
        match res {
            Ok(v) => Some(v@.map_values(|s: String| s@)) == spec_parse_json_pointer(
                if pointer@.len() == 0 || pointer@[0] == '/' {
                    pointer@
                } else {
                    seq!['/'] + pointer@
                },
            ),
            Err(_) => false,
        },
{
    let v = str_chars(pointer);
    if v.len() == 0 || v[0] == '/' {
        return parse_chars(&v);
    }
    let mut absolute: Vec<char> = Vec::new();
    absolute.push('/');
    let mut i: usize = 0;
    while i < v.len()
        invariant
            i <= v.len(),
            absolute@ == seq!['/'] + v@.take(i as int),
        decreases v.len() - i,
    {
        absolute.push(v[i]);
        assert(v@.take(i + 1) =~= v@.take(i as int).push(v@[i as int]));
        i = i + 1;
    }
    assert(v@.take(i as int) =~= v@);
    parse_chars(&absolute)
}

/// Formats unescaped components into an RFC 6901 pointer.
pub fn format_json_pointer(path: &[String]) -> (res: String)
    ensures
        res@ == spec_format_json_pointer(path@.map_values(|s: String| s@)),
{
    let ghost p = path@.map_values(|s: String| s@);
    let mut out: Vec<char> = Vec::new();
    let mut i: usize = 0;
    while i < path.len()
        invariant
            i <= path.len(),
            p == path@.map_values(|s: String| s@),
            out@ == spec_format_json_pointer(p.take(i as int)),
        decreases path.len() - i,
    {
        let c = str_chars(path[i].as_str());
        let e = escape_chars(&c);
        let ghost o0 = out@;
        out.push('/');
        let mut j: usize = 0;
        while j < e.len()
            invariant
                j <= e.len(),
                out@ == o0 + seq!['/'] + e@.take(j as int),
            decreases e.len() - j,
        {
            out.push(e[j]);
            assert(e@.take(j + 1) =~= e@.take(j as int).push(e@[j as int]));
            j = j + 1;
        }
        proof {
            assert(e@.take(j as int) =~= e@);
            assert(p.take(i + 1).drop_last() =~= p.take(i as int));
            assert(p.take(i + 1).last() == p[i as int]);
        }
        i = i + 1;
    }
    assert(p.take(i as int) =~= p);
    chars_to_string(out.as_slice())
}

} // verus!
