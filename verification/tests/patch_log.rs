use json_joy_core::patch::{DecodedOp, Patch, Timestamp};
use json_joy_core::patch_builder::encode_patch_from_ops;
use json_joy_core::patch_log::{append_patch, deserialize_patches, serialize_patches, PatchLogError};

fn patch(sid: u64, time: u64, text: &str) -> Patch {
    let ops = vec![
        DecodedOp::NewStr { id: Timestamp { sid, time } },
        DecodedOp::InsStr {
            id: Timestamp { sid, time: time + 1 },
            obj: Timestamp { sid, time },
            reference: Timestamp { sid, time },
            data: text.to_string(),
        },
    ];
    Patch::from_binary(&encode_patch_from_ops(sid, time, &ops).unwrap()).unwrap()
}

#[test]
fn empty_log() {
    assert_eq!(serialize_patches(&[]), Vec::<u8>::new());
    assert_eq!(deserialize_patches(&[]).unwrap().len(), 0);
}

#[test]
fn log_round_trip() {
    let a = patch(70000, 1, "ab");
    let b = patch(70001, 5, "xyz");
    let log = serialize_patches(&[patch(70000, 1, "ab"), patch(70001, 5, "xyz")]);
    let abin = a.to_binary();
    assert_eq!(log[0], 1);
    assert_eq!(&log[1..5], &(abin.len() as u32).to_be_bytes());
    assert_eq!(&log[5..5 + abin.len()], abin.as_slice());
    let back = deserialize_patches(&log).unwrap();
    assert_eq!(back.len(), 2);
    assert_eq!(back[0].to_binary(), a.to_binary());
    assert_eq!(back[1].to_binary(), b.to_binary());
}

#[test]
fn append_builds_the_same_log() {
    let a = patch(70000, 1, "ab");
    let b = patch(70001, 5, "xyz");
    let one = append_patch(&[], &a);
    assert_eq!(one, serialize_patches(&[patch(70000, 1, "ab")]));
    let two = append_patch(&one, &b);
    assert_eq!(two, serialize_patches(&[patch(70000, 1, "ab"), patch(70001, 5, "xyz")]));
    let back = deserialize_patches(&two).unwrap();
    assert_eq!(back[1].to_binary(), b.to_binary());
}

#[test]
fn log_faults() {
    assert!(matches!(deserialize_patches(&[2]), Err(PatchLogError::UnsupportedVersion(2))));
    assert!(matches!(deserialize_patches(&[1, 0, 0]), Err(PatchLogError::TruncatedLengthHeader)));
    assert!(matches!(deserialize_patches(&[1, 0, 0, 0, 5, 1, 2]), Err(PatchLogError::TruncatedPatchData)));
    assert!(matches!(
        deserialize_patches(&[1, 0xff, 0xff, 0xff, 0xff]),
        Err(PatchLogError::PatchTooLarge(4294967295))
    ));
    assert!(matches!(
        deserialize_patches(&[1, 0x00, 0xa0, 0x00, 0x01]),
        Err(PatchLogError::PatchTooLarge(10485761))
    ));
}
