use json_joy_core::json::{JsonNumber, JsonValue};
use json_joy_core::patch::{ConValue, DecodedOp, Patch, Timestamp};
use json_joy_core::patch_builder::encode_patch_from_ops;
use json_joy_core::patch_compact_binary_codec::{
    decode_patch_compact_binary, encode_patch_compact_binary, CompactBinaryCodecError,
};
use json_joy_core::patch_compact_codec::CompactCodecError;

fn ts(sid: u64, time: u64) -> Timestamp {
    Timestamp { sid, time }
}

fn patch_of(sid: u64, time: u64, ops: &[DecodedOp]) -> Patch {
    Patch::from_binary(&encode_patch_from_ops(sid, time, ops).unwrap()).unwrap()
}

#[test]
fn compact_binary_round_trips() {
    let ops = vec![
        DecodedOp::NewStr { id: ts(7, 1) },
        DecodedOp::InsStr { id: ts(7, 2), obj: ts(7, 1), reference: ts(7, 1), data: "hi".to_string() },
        DecodedOp::NewCon { id: ts(7, 4), value: ConValue::Json(JsonValue::Number(JsonNumber::PosInt(42))) },
    ];
    let p = patch_of(7, 1, &ops);
    let bytes = encode_patch_compact_binary(&p).unwrap();
    let back = decode_patch_compact_binary(&bytes).unwrap();
    assert_eq!(back.to_binary(), p.to_binary());
    assert_eq!(back.decoded_ops(), ops);
}

#[test]
fn compact_binary_writes_cbor_array() {
    let ops = vec![DecodedOp::NewObj { id: ts(7, 1) }];
    let bytes = encode_patch_compact_binary(&patch_of(7, 1, &ops)).unwrap();
    // An array of two rows: the header [[7, 1]] and the row [2].
    assert_eq!(bytes, vec![0x82, 0x81, 0x82, 0x07, 0x01, 0x81, 0x02]);
}

#[test]
fn compact_binary_refuses_bad_cbor() {
    assert!(matches!(decode_patch_compact_binary(&[0xff]), Err(CompactBinaryCodecError::InvalidCbor)));
    assert!(matches!(decode_patch_compact_binary(&[]), Err(CompactBinaryCodecError::InvalidCbor)));
}

#[test]
fn compact_binary_refuses_bad_compact_form() {
    // The CBOR integer 5 is no compact patch.
    assert!(matches!(
        decode_patch_compact_binary(&[0x05]),
        Err(CompactBinaryCodecError::Compact(CompactCodecError::InvalidHeader))
    ));
}
