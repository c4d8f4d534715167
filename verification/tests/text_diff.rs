use json_joy_core::util_diff::bin_diff;
use json_joy_core::util_diff::str_diff::{self, Patch, PatchOpType};

fn op(t: PatchOpType, s: &str) -> (PatchOpType, String) {
    (t, s.to_string())
}

fn check_texts(a: &str, b: &str) -> Patch {
    let p = str_diff::diff(a, b);
    assert_eq!(str_diff::src(&p), a);
    assert_eq!(str_diff::dst(&p), b);
    for (i, (_, s)) in p.iter().enumerate() {
        assert!(!s.is_empty());
        if i > 0 {
            assert_ne!(p[i - 1].0, p[i].0);
        }
    }
    p
}

#[test]
fn diff_of_equal_and_empty_texts() {
    assert_eq!(str_diff::diff("", ""), vec![]);
    assert_eq!(str_diff::diff("abc", "abc"), vec![op(PatchOpType::Eql, "abc")]);
    assert_eq!(str_diff::diff("", "abc"), vec![op(PatchOpType::Ins, "abc")]);
    assert_eq!(str_diff::diff("abc", ""), vec![op(PatchOpType::Del, "abc")]);
}

#[test]
fn diff_single_character_change() {
    assert_eq!(
        str_diff::diff("hello", "hallo"),
        vec![
            op(PatchOpType::Eql, "h"),
            op(PatchOpType::Del, "e"),
            op(PatchOpType::Ins, "a"),
            op(PatchOpType::Eql, "llo"),
        ]
    );
}

#[test]
fn diff_keeps_contained_text() {
    assert_eq!(
        str_diff::diff("a", "XaY"),
        vec![op(PatchOpType::Ins, "X"), op(PatchOpType::Eql, "a"), op(PatchOpType::Ins, "Y")]
    );
    assert_eq!(
        str_diff::diff("XaY", "a"),
        vec![op(PatchOpType::Del, "X"), op(PatchOpType::Eql, "a"), op(PatchOpType::Del, "Y")]
    );
}

#[test]
fn diff_shifts_insertion_to_the_left() {
    assert_eq!(
        str_diff::diff("ab", "aab"),
        vec![op(PatchOpType::Ins, "a"), op(PatchOpType::Eql, "ab")]
    );
}

#[test]
fn diff_texts_round_trip() {
    let pairs = [
        ("kitten", "sitting"),
        ("The quick brown fox", "The quick red fox jumps"),
        ("abcdefghij", "axcyezghij"),
        ("😀a😁", "😁a😀b"),
        ("line one\nline two\n", "line one\nline 2\nline three\n"),
        ("aaaa", "bbbb"),
        ("abab", "baba"),
    ];
    for (a, b) in pairs {
        check_texts(a, b);
        check_texts(b, a);
    }
}

#[test]
fn diff_does_not_split_surrogate_pairs() {
    let p = check_texts("x😀", "x😁");
    assert_eq!(p[0], op(PatchOpType::Eql, "x"));
}

#[test]
fn bin_diff_round_trips_bytes() {
    let a = vec![1u8, 2, 3, 200, 255];
    let b = vec![1u8, 9, 3, 200, 0, 255];
    let p = bin_diff::diff(&a, &b);
    assert_eq!(bin_diff::src(&p), a);
    assert_eq!(bin_diff::dst(&p), b);
}

use json_joy_core::util_diff::line_diff::{self, LinePatchOpType};

fn lines(v: &[&str]) -> Vec<String> {
    v.iter().map(|s| s.to_string()).collect()
}

#[test]
fn line_diff_changed_last_line() {
    let p = line_diff::diff(&lines(&["a", "b"]), &lines(&["a", "c"]));
    assert_eq!(p, vec![(LinePatchOpType::Eql, 0, 0), (LinePatchOpType::Mix, 1, 1)]);
}

#[test]
fn line_diff_deleted_last_line() {
    let p = line_diff::diff(&lines(&["a", "b"]), &lines(&["a"]));
    assert_eq!(p, vec![(LinePatchOpType::Eql, 0, 0), (LinePatchOpType::Del, 1, 0)]);
}

#[test]
fn line_diff_empty_sides_and_equal() {
    assert_eq!(
        line_diff::diff(&lines(&["x", "y"]), &lines(&[])),
        vec![(LinePatchOpType::Del, 0, -1), (LinePatchOpType::Del, 1, -1)]
    );
    assert_eq!(line_diff::diff(&lines(&[]), &lines(&["x"])), vec![(LinePatchOpType::Ins, -1, 0)]);
    assert_eq!(line_diff::diff(&lines(&["x", "y"]), &lines(&["x", "y"])), vec![]);
}

#[test]
fn agg_splits_runs_at_newlines() {
    let p = vec![op(PatchOpType::Eql, "a\nb"), op(PatchOpType::Ins, "c\nd")];
    let ls = line_diff::agg(p);
    assert_eq!(
        ls,
        vec![
            vec![op(PatchOpType::Eql, "a\n")],
            vec![op(PatchOpType::Eql, "b"), op(PatchOpType::Ins, "c\n")],
            vec![op(PatchOpType::Ins, "d")],
        ]
    );
}

#[test]
fn agg_moves_equal_line_start() {
    let p = vec![op(PatchOpType::Eql, "x"), op(PatchOpType::Del, "y\nx"), op(PatchOpType::Eql, "z")];
    let ls = line_diff::agg(p.clone());
    assert_eq!(ls, vec![vec![op(PatchOpType::Del, "xy\n")], vec![op(PatchOpType::Eql, "xz")]]);
    let flat: Patch = ls.into_iter().flatten().collect();
    assert_eq!(str_diff::src(&flat), str_diff::src(&p));
    assert_eq!(str_diff::dst(&flat), str_diff::dst(&p));
}

#[test]
fn overlap_of_suffix_and_prefix() {
    assert_eq!(str_diff::overlap("abc", "bcd"), 2);
    assert_eq!(str_diff::overlap("abcab", "abxyz"), 2);
    assert_eq!(str_diff::overlap("abc", "abc"), 3);
    assert_eq!(str_diff::overlap("abc", "xyz"), 0);
    assert_eq!(str_diff::overlap("", "abc"), 0);
    assert_eq!(str_diff::overlap("xxabc", "abc"), 3);
}

#[test]
fn overlap_does_not_look_inside_surrogate_pairs() {
    // The last unit of the pair alone decodes to U+FFFD, found nowhere.
    assert_eq!(str_diff::overlap("x\u{1F600}", "\u{1F600}y"), 0);
}

#[test]
fn diff_edit_insertion_at_caret() {
    let p = str_diff::diff_edit("ab", "acb", 2);
    assert_eq!(p, vec![op(PatchOpType::Eql, "a"), op(PatchOpType::Ins, "c"), op(PatchOpType::Eql, "b")]);
    let p = str_diff::diff_edit("aa", "aaa", 1);
    assert_eq!(p, vec![op(PatchOpType::Ins, "a"), op(PatchOpType::Eql, "aa")]);
    assert_eq!(str_diff::src(&p), "aa");
    assert_eq!(str_diff::dst(&p), "aaa");
}

#[test]
fn diff_edit_deletion_at_caret() {
    let p = str_diff::diff_edit("acb", "ab", 1);
    assert_eq!(p, vec![op(PatchOpType::Eql, "a"), op(PatchOpType::Del, "c"), op(PatchOpType::Eql, "b")]);
    let p = str_diff::diff_edit("abc", "ab", 2);
    assert_eq!(p, vec![op(PatchOpType::Eql, "ab"), op(PatchOpType::Del, "c")]);
}

#[test]
fn diff_edit_falls_back_to_diff() {
    assert_eq!(str_diff::diff_edit("aa", "aaa", -1), str_diff::diff("aa", "aaa"));
    assert_eq!(str_diff::diff_edit("aa", "aaa", 9), str_diff::diff("aa", "aaa"));
    assert_eq!(str_diff::diff_edit("abc", "abd", 2), str_diff::diff("abc", "abd"));
    let p = str_diff::diff_edit("hello", "hallo world", 3);
    assert_eq!(str_diff::src(&p), "hello");
    assert_eq!(str_diff::dst(&p), "hallo world");
}
