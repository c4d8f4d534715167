use json_joy_core::cbor_enc::{write_cbor_json, write_cbor_text, write_cbor_uint};
use json_joy_core::json::{JsonNumber, JsonValue};
use json_joy_core::patch::{ConValue, DecodedOp, Patch, Timespan, Timestamp};
use json_joy_core::patch_builder::{encode_patch_from_ops, PatchBuildError, PatchBuilder};

fn ts(sid: u64, time: u64) -> Timestamp {
    Timestamp { sid, time }
}

fn make_hi_ops() -> Vec<DecodedOp> {
    vec![
        DecodedOp::NewStr { id: ts(5, 1) },
        DecodedOp::InsVal { id: ts(5, 2), obj: ts(0, 0), val: ts(5, 1) },
        DecodedOp::InsStr { id: ts(5, 3), obj: ts(5, 1), reference: ts(5, 1), data: "hi".to_string() },
    ]
}

#[test]
fn encode_string_root_patch_bytes() {
    let bytes = encode_patch_from_ops(5, 1, &make_hi_ops()).unwrap();
    assert_eq!(
        bytes,
        vec![0x05, 0x01, 0xf7, 0x03, 0x20, 0x48, 0x80, 0x00, 0x01, 0x62, 0x01, 0x01, b'h', b'i']
    );
}

#[test]
fn encoded_patch_decodes_to_same_ops() {
    let ops = make_hi_ops();
    let bytes = encode_patch_from_ops(5, 1, &ops).unwrap();
    let patch = Patch::from_binary(&bytes).unwrap();
    assert_eq!(patch.op_count(), 3);
    assert_eq!(patch.span(), 4);
    assert_eq!(patch.id(), Some((5, 1)));
    assert_eq!(patch.decoded_ops(), ops.as_slice());
}

#[test]
fn encode_refuses_first_op_off_timeline() {
    let ops = vec![
        DecodedOp::NewStr { id: ts(5, 1) },
        DecodedOp::NewObj { id: ts(5, 3) },
        DecodedOp::NewArr { id: ts(6, 9) },
    ];
    let err = encode_patch_from_ops(5, 1, &ops).unwrap_err();
    assert_eq!(
        err,
        PatchBuildError::NonCanonicalId {
            index: 1,
            expected_sid: 5,
            expected_time: 2,
            actual_sid: 5,
            actual_time: 3,
        }
    );
}

#[test]
fn encode_refuses_wide_vector_index() {
    let ops = vec![DecodedOp::InsVec { id: ts(5, 1), obj: ts(5, 0), data: vec![(300, ts(5, 0))] }];
    assert_eq!(encode_patch_from_ops(5, 1, &ops), Err(PatchBuildError::VecIndexOutOfRange));
}

#[test]
fn encode_foreign_ids_and_long_lengths() {
    let ops = vec![
        DecodedOp::Del {
            id: ts(5, 1),
            obj: ts(7, 2),
            what: vec![Timespan { sid: 5, time: 0, span: 3 }],
        },
        DecodedOp::Nop { id: ts(5, 2), len: 9 },
    ];
    let bytes = encode_patch_from_ops(5, 1, &ops).unwrap();
    assert_eq!(
        bytes,
        vec![0x05, 0x01, 0xf7, 0x02, 0x81, 0x82, 0x07, 0x00, 0x03, 0x88, 0x09]
    );
}

#[test]
fn encode_json_constants() {
    let ops = vec![
        DecodedOp::NewCon { id: ts(5, 1), value: ConValue::Json(JsonValue::String("a".to_string())) },
        DecodedOp::NewCon { id: ts(5, 2), value: ConValue::Json(JsonValue::Number(JsonNumber::PosInt(1000))) },
        DecodedOp::NewCon { id: ts(5, 3), value: ConValue::Json(JsonValue::Number(JsonNumber::NegInt(-2))) },
        DecodedOp::NewCon { id: ts(5, 4), value: ConValue::Json(JsonValue::Number(JsonNumber::Float(1.5f64.to_bits()))) },
        DecodedOp::NewCon { id: ts(5, 5), value: ConValue::Ref(ts(5, 1)) },
    ];
    let bytes = encode_patch_from_ops(5, 1, &ops).unwrap();
    assert_eq!(
        bytes,
        vec![
            0x05, 0x01, 0xf7, 0x05, 0x00, 0x61, b'a', 0x00, 0x19, 0x03, 0xe8, 0x00, 0x21, 0x00, 0xfa,
            0x3f, 0xc0, 0x00, 0x00, 0x01, 0x01,
        ]
    );
}

#[test]
fn builder_collects_and_decodes() {
    let mut b = PatchBuilder::new(5, 1);
    for op in make_hi_ops() {
        b.push_op(op);
    }
    assert_eq!(b.sid(), 5);
    assert_eq!(b.time(), 1);
    assert_eq!(b.ops().len(), 3);
    let p = b.into_patch().unwrap();
    assert_eq!(p.op_count(), 3);
    assert_eq!(p.next_time(), 5);
}

#[test]
fn cbor_heads_take_shortest_form() {
    let mut out = Vec::new();
    write_cbor_uint(&mut out, 0, 23);
    write_cbor_uint(&mut out, 0, 24);
    write_cbor_uint(&mut out, 1, 0x1_0000);
    assert_eq!(out, vec![0x17, 0x18, 0x18, 0x3a, 0x00, 0x01, 0x00, 0x00]);
}

#[test]
fn cbor_text_head_sized_by_four_per_byte() {
    let mut out = Vec::new();
    write_cbor_text(&mut out, "abcdef");
    assert_eq!(out[0], 0x78);
    assert_eq!(out[1], 6);
    assert_eq!(&out[2..], b"abcdef");
}

#[test]
fn cbor_inexact_float_is_double() {
    let mut out = Vec::new();
    write_cbor_json(&mut out, &JsonValue::Number(JsonNumber::Float(0.1f64.to_bits())));
    let mut expected = vec![0xfb];
    expected.extend_from_slice(&0.1f64.to_be_bytes());
    assert_eq!(out, expected);
}

#[test]
fn cbor_object_and_array() {
    let mut out = Vec::new();
    let v = JsonValue::Object(vec![(
        "k".to_string(),
        JsonValue::Array(vec![JsonValue::Null, JsonValue::Bool(true)]),
    )]);
    write_cbor_json(&mut out, &v);
    assert_eq!(out, vec![0xa1, 0x61, b'k', 0x82, 0xf6, 0xf5]);
}

#[test]
fn constants_and_object_writes_read_back() {
    let ts = |t: u64| Timestamp { sid: 9, time: t };
    let ops = vec![
        DecodedOp::NewCon { id: ts(1), value: ConValue::Json(JsonValue::Bool(true)) },
        DecodedOp::NewCon { id: ts(2), value: ConValue::Json(JsonValue::Null) },
        DecodedOp::NewCon { id: ts(3), value: ConValue::Json(JsonValue::Number(JsonNumber::Float(1.5f64.to_bits()))) },
        DecodedOp::NewCon {
            id: ts(4),
            value: ConValue::Json(JsonValue::Object(vec![(
                "k".to_string(),
                JsonValue::Array(vec![JsonValue::Number(JsonNumber::NegInt(-3)), JsonValue::String("x".to_string())]),
            )])),
        },
        DecodedOp::NewObj { id: ts(5) },
        DecodedOp::InsObj { id: ts(6), obj: ts(5), data: vec![("a".to_string(), ts(1)), ("bé".to_string(), ts(4))] },
    ];
    let bytes = encode_patch_from_ops(9, 1, &ops).unwrap();
    let p = Patch::from_binary(&bytes).unwrap();
    assert_eq!(p.decoded_ops(), ops.as_slice());
}
