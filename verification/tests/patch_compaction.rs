use json_joy_core::patch::{DecodedOp, Patch, Timestamp};
use json_joy_core::patch_builder::encode_patch_from_ops;
use json_joy_core::patch_compaction::{combine_patches, compact_patch, CompactionError};

fn ts(sid: u64, time: u64) -> Timestamp {
    Timestamp { sid, time }
}

fn patch_of(sid: u64, time: u64, ops: &[DecodedOp]) -> Patch {
    Patch::from_binary(&encode_patch_from_ops(sid, time, ops).unwrap()).unwrap()
}

fn ins(id: Timestamp, reference: Timestamp, text: &str) -> DecodedOp {
    DecodedOp::InsStr { id, obj: ts(70000, 1), reference, data: text.to_string() }
}

#[test]
fn combine_adjacent_patches() {
    let a = vec![DecodedOp::NewStr { id: ts(70000, 1) }, ins(ts(70000, 2), ts(70000, 1), "ab")];
    let b = vec![ins(ts(70000, 4), ts(70000, 3), "c")];
    let joined = combine_patches(&[patch_of(70000, 1, &a), patch_of(70000, 4, &b)]).unwrap();
    let mut all = a;
    all.extend(b);
    assert_eq!(joined.decoded_ops(), all.as_slice());
    assert_eq!(joined.id(), Some((70000, 1)));
}

#[test]
fn combine_fills_gap_with_nop() {
    let a = vec![DecodedOp::NewStr { id: ts(70000, 1) }];
    let b = vec![DecodedOp::NewArr { id: ts(70000, 5) }];
    let joined = combine_patches(&[patch_of(70000, 1, &a), patch_of(70000, 5, &b)]).unwrap();
    assert_eq!(
        joined.decoded_ops(),
        &[
            DecodedOp::NewStr { id: ts(70000, 1) },
            DecodedOp::Nop { id: ts(70000, 2), len: 3 },
            DecodedOp::NewArr { id: ts(70000, 5) },
        ]
    );
}

#[test]
fn combine_faults() {
    let a = vec![DecodedOp::NewStr { id: ts(70000, 1) }, DecodedOp::NewStr { id: ts(70000, 2) }];
    let b = vec![DecodedOp::NewArr { id: ts(70000, 2) }];
    assert_eq!(
        combine_patches(&[patch_of(70000, 1, &a), patch_of(70000, 2, &b)]).unwrap_err(),
        CompactionError::TimestampConflict
    );
    let c = vec![DecodedOp::NewArr { id: ts(70001, 9) }];
    assert_eq!(
        combine_patches(&[patch_of(70000, 1, &a), patch_of(70001, 9, &c)]).unwrap_err(),
        CompactionError::SidMismatch
    );
}

#[test]
fn combine_of_nothing_and_of_blank_patches() {
    let none = combine_patches(&[]).unwrap();
    assert_eq!(none.op_count(), 0);
    let blank = Patch::from_binary(&[]).unwrap();
    let b = vec![DecodedOp::NewArr { id: ts(70000, 5) }];
    let second = patch_of(70000, 5, &b);
    let out = combine_patches(&[blank, patch_of(70000, 5, &b)]).unwrap();
    assert_eq!(out.to_binary(), second.to_binary());
}

#[test]
fn compact_merges_continued_text() {
    let ops = vec![
        DecodedOp::NewStr { id: ts(70000, 1) },
        ins(ts(70000, 2), ts(70000, 1), "ab"),
        ins(ts(70000, 4), ts(70000, 3), "cd"),
        ins(ts(70000, 6), ts(70000, 1), "x"),
    ];
    let out = compact_patch(&patch_of(70000, 1, &ops)).unwrap();
    assert_eq!(
        out.decoded_ops(),
        &[
            DecodedOp::NewStr { id: ts(70000, 1) },
            ins(ts(70000, 2), ts(70000, 1), "abcd"),
            ins(ts(70000, 6), ts(70000, 1), "x"),
        ]
    );
    assert_eq!(out.span(), 6);
}

#[test]
fn compact_of_blank_patch_keeps_it() {
    let blank = Patch::from_binary(&[1, 2, 3]).unwrap();
    let out = compact_patch(&blank).unwrap();
    assert_eq!(out.to_binary(), vec![1, 2, 3]);
}
