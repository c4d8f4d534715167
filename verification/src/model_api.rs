//! Paths into a model view: steps, JSON Pointer parsing and parent splitting.

use vstd::prelude::*;
use crate::text::{chars_to_string, str_chars};
use crate::json_pointer::{split_on, spec_unescape};
use crate::model::ModelError;
use crate::model_runtime::ApplyError;
use crate::patch_builder::PatchBuildError;

verus! {

/// One step of a path into a JSON view.
#[derive(Debug, Clone, PartialEq, Eq)]
pub enum PathStep {
    Key(String),
    Index(usize),
    Append,
}

/// Failures of the view differ.
#[derive(Debug, Clone, PartialEq, Eq)]
pub enum DiffError {
    UnsupportedShape,
    NativeEncode(PatchBuildError),
}

/// Failures of the model API.
#[derive(Debug, Clone, PartialEq, Eq)]
pub enum ModelApiError {
    NoPatches,
    MissingPatchId,
    PathNotFound,
    NotObject,
    NotArray,
    NotString,
    InvalidPathOp,
    Model(ModelError),
    Apply(ApplyError),
    Diff(DiffError),
    PatchDecode(String),
}

/// Splits a nonempty path into its parent path and its last step.
pub fn split_parent(path: &[PathStep]) -> (res: Result<(&[PathStep], &PathStep), ModelApiError>)
    ensures
        match res {
            Ok((parent, leaf)) => path@.len() > 0 && parent@ == path@.drop_last() && *leaf
                == path@.last(),
            Err(e) => path@.len() == 0 && e == ModelApiError::InvalidPathOp,
        },
{
    if path.len() == 0 {
        return Err(ModelApiError::InvalidPathOp);
    }
    let n = path.len() - 1;
    let parent = vstd::slice::slice_subrange(path, 0, n);
    assert(parent@ =~= path@.drop_last());
    Ok((parent, &path[n]))
}

/// The number the decimal digits `d` denote.
pub open spec fn digits_value(d: Seq<char>) -> int
    decreases d.len(),
{
    if d.len() == 0 {
        0
    } else {
        digits_value(d.drop_last()) * 10 + (d.last() as int - '0' as int)
    }
}

/// Every character is an ASCII decimal digit.
pub open spec fn all_digits(d: Seq<char>) -> bool {
    forall|i: int| 0 <= i < d.len() ==> '0' <= #[trigger] d[i] <= '9'
}

/// What parsing `s` as a `usize` gives: an optional `+`, then at least one
/// decimal digit and nothing else, with a value that fits.
pub open spec fn spec_parse_usize(s: Seq<char>) -> Option<usize> {
    let d = if s.len() > 0 && s[0] == '+' {
        s.drop_first()
    } else {
        s
    };
    if d.len() == 0 || !all_digits(d) || digits_value(d) > usize::MAX {
        None
    } else {
        Some(digits_value(d) as usize)
    }
}

/// The step one unescaped pointer token stands for.
pub open spec fn spec_path_step(token: Seq<char>) -> PathStepView {
    if token == seq!['-'] {
        PathStepView::Append
    } else {
        match spec_parse_usize(token) {
            Some(i) => PathStepView::Index(i),
            None => PathStepView::Key(token),
        }
    }
}

/// A path step with its key as a character sequence.
pub enum PathStepView {
    Key(Seq<char>),
    Index(usize),
    Append,
}

impl PathStep {
    /// The step with its key as a character sequence.
    pub open spec fn view_step(&self) -> PathStepView {
        match self {
            PathStep::Key(k) => PathStepView::Key(k@),
            PathStep::Index(i) => PathStepView::Index(*i),
            PathStep::Append => PathStepView::Append,
        }
    }
}

/// The steps a pointer denotes: empty for `""` and `"/"`; a pointer that does
/// not start with `/` is read as if it did.
pub open spec fn spec_parse_path(p: Seq<char>) -> Seq<PathStepView> {
    if p.len() == 0 || p == seq!['/'] {
        Seq::empty()
    } else {
        let body = if p[0] == '/' {
            p.drop_first()
        } else {
            p
        };
        split_on(body, '/').map_values(|raw: Seq<char>| spec_path_step(spec_unescape(raw)))
    }
}

proof fn lemma_digits_value_nonneg_mono(d: Seq<char>, k: int)
    requires
        all_digits(d),
        0 <= k <= d.len(),
    ensures
        0 <= digits_value(d.take(k)) <= digits_value(d),
    decreases d.len(),
{
    if d.len() > 0 {
        if k == d.len() {
            assert(d.take(k) =~= d);
        } else {
            assert(all_digits(d.drop_last()));
            assert(d.drop_last().take(k) =~= d.take(k));
            lemma_digits_value_nonneg_mono(d.drop_last(), k);
        }
        lemma_digits_value_nonneg_mono(d.drop_last(), d.len() - 1);
        assert(d.drop_last().take(d.len() - 1) =~= d.drop_last());
        assert('0' <= d[d.len() - 1] <= '9');
    } else {
        assert(d.take(k) =~= d);
    }
}

/// Parses a token as a `usize` the way `str::parse::<usize>` does.
fn parse_usize(s: &Vec<char>) -> (res: Option<usize>)
    ensures
        res == spec_parse_usize(s@),
{
    let start: usize = if s.len() > 0 && s[0] == '+' {
        1
    } else {
        0
    };
    let ghost d = if s@.len() > 0 && s@[0] == '+' {
        s@.drop_first()
    } else {
        s@
    };
    assert(d =~= s@.skip(start as int));
    if start >= s.len() {
        return None;
    }
    let mut value: usize = 0;
    let mut i: usize = start;
    while i < s.len()
        invariant
            start <= i <= s.len(),
            d == s@.skip(start as int),
            d == (if s@.len() > 0 && s@[0] == '+' {
                s@.drop_first()
            } else {
                s@
            }),
            value == digits_value(d.take(i - start)),
            all_digits(d.take(i - start)),
        decreases s.len() - i,
    {
        let c = s[i];
        proof {
            assert(d.take(i - start + 1).drop_last() =~= d.take(i - start));
            assert(d.take(i - start + 1).last() == c);
        }
        if !('0' <= c && c <= '9') {
            proof {
                assert(d[i - start] == c);
                assert(!('0' <= d[i - start] <= '9'));
            }
            return None;
        }
        let digit = (c as u32 - '0' as u32) as usize;
        proof {
            assert(all_digits(d.take(i - start + 1))) by {
                assert forall|k: int| 0 <= k < i - start + 1 implies '0' <= #[trigger] d.take(
                    i - start + 1,
                )[k] <= '9' by {
                    if k < i - start {
                        assert(d.take(i - start + 1)[k] == d.take(i - start)[k]);
                    }
                }
            }
        }
        let next = match value.checked_mul(10) {
            Some(m) => m.checked_add(digit),
            None => None,
        };
        match next {
            Some(v) => {
                value = v;
            },
            None => {
                proof {
                    let e = d.take(i - start + 1);
                    assert(e.drop_last() =~= d.take(i - start));
                    assert(e.last() == c);
                    assert(digits_value(e) == value * 10 + digit);
                    assert(value * 10 + digit > usize::MAX);
                    if all_digits(d) {
                        lemma_digits_value_nonneg_mono(d, i - start + 1);
                    }
                    assert(!all_digits(d) || digits_value(d) > usize::MAX);
                }
                return None;
            },
        }
        i = i + 1;
    }
    assert(d.take(i - start) =~= d);
    Some(value)
}

/// Parses a JSON Pointer into path steps: `-` appends, tokens that read as a
/// `usize` are indices, all others keys.
pub fn parse_json_pointer(path: &str) -> (res: Result<Vec<PathStep>, ModelApiError>)
    ensures
        match res {
            Ok(v) => v@.map_values(|s: PathStep| s.view_step()) == spec_parse_path(path@),
            Err(_) => false,
        },
{
    let p = str_chars(path);
    if p.len() == 0 || (p.len() == 1 && p[0] == '/') {
        let out: Vec<PathStep> = Vec::new();
        proof {
            if p@.len() == 1 {
                assert(p@ =~= seq!['/']);
            }
        }
        assert(out@.map_values(|s: PathStep| s.view_step()) =~= Seq::<PathStepView>::empty());
        return Ok(out);
    }
    let start: usize = if p[0] == '/' {
        1
    } else {
        0
    };
    let mut body: Vec<char> = Vec::new();
    let mut i: usize = start;
    while i < p.len()
        invariant
            start <= i <= p.len(),
            start <= 1,
            body@ == p@.subrange(start as int, i as int),
        decreases p.len() - i,
    {
        body.push(p[i]);
        assert(p@.subrange(start as int, i + 1) =~= p@.subrange(start as int, i as int).push(
            p@[i as int],
        ));
        i = i + 1;
    }
    proof {
        assert(p@ != seq!['/']) by {
            if p@ == seq!['/'] {
                assert(p@.len() == 1 && p@[0] == '/');
            }
        }
        if start == 1 {
            assert(body@ =~= p@.drop_first());
        } else {
            assert(body@ =~= p@);
        }
    }
    let parts = split_segments(&body);
    let ghost pieces = split_on(body@, '/');
    let mut out: Vec<PathStep> = Vec::new();
    let mut k: usize = 0;
    while k < parts.len()
        invariant
            k <= parts.len(),
            parts@.map_values(|v: Vec<char>| v@) == pieces,
            out@.map_values(|s: PathStep| s.view_step()) == pieces.take(k as int).map_values(
                |raw: Seq<char>| spec_path_step(spec_unescape(raw)),
            ),
        decreases parts.len() - k,
    {
        let token = unescape_token(&parts[k]);
        let step = if token.len() == 1 && token[0] == '-' {
            proof {
                assert(token@ =~= seq!['-']);
            }
            PathStep::Append
        } else {
            proof {
                assert(token@ != seq!['-']) by {
                    if token@ == seq!['-'] {
                        assert(token@.len() == 1 && token@[0] == '-');
                    }
                }
            }
            match parse_usize(&token) {
                Some(idx) => PathStep::Index(idx),
                None => PathStep::Key(chars_to_string(token.as_slice())),
            }
        };
        let ghost o0 = out@;
        out.push(step);
        proof {
            assert(parts@[k as int]@ == pieces[k as int]);
            assert(out@.map_values(|s: PathStep| s.view_step()) =~= o0.map_values(
                |s: PathStep| s.view_step(),
            ).push(spec_path_step(spec_unescape(pieces[k as int]))));
            assert(pieces.take(k + 1).map_values(|raw: Seq<char>| spec_path_step(spec_unescape(raw)))
                =~= pieces.take(k as int).map_values(
                |raw: Seq<char>| spec_path_step(spec_unescape(raw)),
            ).push(spec_path_step(spec_unescape(pieces[k as int]))));
        }
        k = k + 1;
    }
    assert(pieces.take(k as int) =~= pieces);
    Ok(out)
}

fn split_segments(s: &Vec<char>) -> (res: Vec<Vec<char>>)
    ensures
        res@.map_values(|v: Vec<char>| v@) == split_on(s@, '/'),
{
    crate::json_pointer::split_chars(s, '/')
}

fn unescape_token(s: &Vec<char>) -> (res: Vec<char>)
    ensures
        res@ == spec_unescape(s@),
{
    crate::json_pointer::unescape_chars(s)
}

} // verus!
