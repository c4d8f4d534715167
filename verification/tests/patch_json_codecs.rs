use json_joy_core::json::{JsonNumber, JsonValue};
use json_joy_core::patch::{ConValue, DecodedOp, Patch, Timespan, Timestamp};
use json_joy_core::patch_builder::{encode_patch_from_ops, PatchBuildError};
use json_joy_core::patch_compact_codec::{
    decode_compact_ops, decode_patch_compact, encode_patch_compact, CompactCodecError,
};
use json_joy_core::patch_verbose_codec::{
    decode_patch_verbose, decode_verbose_ops, encode_patch_verbose, VerboseCodecError,
};

fn ts(sid: u64, time: u64) -> Timestamp {
    Timestamp { sid, time }
}

fn n(v: u64) -> JsonValue {
    JsonValue::Number(JsonNumber::PosInt(v))
}

fn arr(v: Vec<JsonValue>) -> JsonValue {
    JsonValue::Array(v)
}

fn s(v: &str) -> JsonValue {
    JsonValue::String(v.to_string())
}

fn obj(v: Vec<(&str, JsonValue)>) -> JsonValue {
    JsonValue::Object(v.into_iter().map(|(k, v)| (k.to_string(), v)).collect())
}

fn patch_of(sid: u64, time: u64, ops: &[DecodedOp]) -> Patch {
    Patch::from_binary(&encode_patch_from_ops(sid, time, ops).unwrap()).unwrap()
}

fn sample_ops() -> Vec<DecodedOp> {
    vec![
        DecodedOp::NewStr { id: ts(70000, 1) },
        DecodedOp::InsVal { id: ts(70000, 2), obj: ts(0, 0), val: ts(70000, 1) },
        DecodedOp::InsStr { id: ts(70000, 3), obj: ts(70000, 1), reference: ts(70000, 1), data: "hi".to_string() },
        DecodedOp::NewBin { id: ts(70000, 5) },
        DecodedOp::InsBin { id: ts(70000, 6), obj: ts(70000, 5), reference: ts(70000, 5), data: vec![1, 2, 3] },
        DecodedOp::NewObj { id: ts(70000, 9) },
        DecodedOp::InsObj { id: ts(70000, 10), obj: ts(70000, 9), data: vec![("k".to_string(), ts(70000, 1))] },
        DecodedOp::NewVec { id: ts(70000, 11) },
        DecodedOp::InsVec { id: ts(70000, 12), obj: ts(70000, 11), data: vec![(0, ts(3, 4))] },
        DecodedOp::NewArr { id: ts(70000, 13) },
        DecodedOp::InsArr { id: ts(70000, 14), obj: ts(70000, 13), reference: ts(70000, 13), data: vec![ts(70000, 1)] },
        DecodedOp::UpdArr { id: ts(70000, 15), obj: ts(70000, 13), reference: ts(70000, 14), val: ts(70000, 5) },
        DecodedOp::Del { id: ts(70000, 16), obj: ts(70000, 1), what: vec![Timespan { sid: 70000, time: 3, span: 1 }] },
        DecodedOp::Nop { id: ts(70000, 17), len: 3 },
        DecodedOp::NewCon { id: ts(70000, 20), value: ConValue::Ref(ts(70000, 1)) },
        DecodedOp::NewCon { id: ts(70000, 21), value: ConValue::Json(s("x")) },
        DecodedOp::NewVal { id: ts(70000, 22) },
    ]
}

#[test]
fn compact_encoding_of_small_patch() {
    let ops = vec![
        DecodedOp::NewStr { id: ts(1, 5) },
        DecodedOp::InsStr { id: ts(1, 6), obj: ts(1, 5), reference: ts(2, 5), data: "ab".to_string() },
        DecodedOp::Nop { id: ts(1, 8), len: 1 },
    ];
    let v = encode_patch_compact(&patch_of(1, 5, &ops)).unwrap();
    let expected = arr(vec![
        arr(vec![n(5)]),
        arr(vec![n(4)]),
        arr(vec![n(12), n(5), arr(vec![n(2), n(5)]), s("ab")]),
        arr(vec![n(17)]),
    ]);
    assert_eq!(v, expected);
}

#[test]
fn compact_round_trip_of_all_operations() {
    let ops = sample_ops();
    let p = patch_of(70000, 1, &ops);
    let v = encode_patch_compact(&p).unwrap();
    let (sid, time, back) = decode_compact_ops(&v).unwrap();
    assert_eq!((sid, time), (70000, 1));
    assert_eq!(back, ops);
    let p2 = decode_patch_compact(&v).unwrap();
    assert_eq!(p2.to_binary(), p.to_binary());
}

#[test]
fn compact_binary_payload_is_base64() {
    let ops = vec![
        DecodedOp::NewBin { id: ts(1, 1) },
        DecodedOp::InsBin { id: ts(1, 2), obj: ts(1, 1), reference: ts(1, 1), data: b"hello".to_vec() },
    ];
    let v = encode_patch_compact(&patch_of(1, 1, &ops)).unwrap();
    match v {
        JsonValue::Array(rows) => assert_eq!(rows[2], arr(vec![n(13), n(1), n(1), s("aGVsbG8=")])),
        _ => panic!("not an array"),
    }
}

#[test]
fn compact_errors() {
    assert!(matches!(decode_compact_ops(&n(1)), Err(CompactCodecError::InvalidHeader)));
    assert!(matches!(decode_compact_ops(&arr(vec![])), Err(CompactCodecError::InvalidHeader)));
    assert!(matches!(decode_compact_ops(&arr(vec![arr(vec![])])), Err(CompactCodecError::InvalidHeader)));
    assert!(matches!(
        decode_compact_ops(&arr(vec![arr(vec![arr(vec![n(1)])])])),
        Err(CompactCodecError::InvalidHeader)
    ));
    assert!(matches!(
        decode_compact_ops(&arr(vec![arr(vec![n(1)]), arr(vec![n(7)])])),
        Err(CompactCodecError::UnknownOpcode(7))
    ));
    assert!(matches!(
        decode_compact_ops(&arr(vec![arr(vec![n(1)]), arr(vec![n(9), n(1)])])),
        Err(CompactCodecError::InvalidOperation)
    ));
    assert!(matches!(
        decode_compact_ops(&arr(vec![arr(vec![n(1)]), arr(vec![n(13), n(1), n(1), s("!!")])])),
        Err(CompactCodecError::InvalidBase64)
    ));
    assert!(matches!(
        decode_patch_compact(&arr(vec![arr(vec![n(1)]), arr(vec![n(11), n(1), arr(vec![arr(vec![n(300), n(1)])])])])),
        Err(CompactCodecError::Build(PatchBuildError::VecIndexOutOfRange))
    ));
    let empty = Patch::from_binary(&[]).unwrap();
    assert!(matches!(encode_patch_compact(&empty), Err(CompactCodecError::EmptyPatch)));
}

#[test]
fn compact_decode_assigns_times_and_defaults() {
    let v = arr(vec![
        arr(vec![arr(vec![n(9), n(3)])]),
        arr(vec![n(0)]),
        arr(vec![n(17)]),
        arr(vec![n(0), n(4), JsonValue::Bool(true)]),
        arr(vec![n(0), n(4)]),
    ]);
    let (sid, time, ops) = decode_compact_ops(&v).unwrap();
    assert_eq!((sid, time), (9, 3));
    assert_eq!(
        ops,
        vec![
            DecodedOp::NewCon { id: ts(9, 3), value: ConValue::Undef },
            DecodedOp::Nop { id: ts(9, 4), len: 1 },
            DecodedOp::NewCon { id: ts(9, 5), value: ConValue::Ref(ts(9, 4)) },
            DecodedOp::NewCon { id: ts(9, 6), value: ConValue::Json(n(4)) },
        ]
    );
}

#[test]
fn verbose_encoding_of_small_patch() {
    let ops = vec![
        DecodedOp::NewStr { id: ts(70000, 5) },
        DecodedOp::InsStr { id: ts(70000, 6), obj: ts(70000, 5), reference: ts(1, 5), data: "ab".to_string() },
    ];
    let v = encode_patch_verbose(&patch_of(70000, 5, &ops)).unwrap();
    let expected = obj(vec![
        ("id", arr(vec![n(70000), n(5)])),
        (
            "ops",
            arr(vec![
                obj(vec![("op", s("new_str"))]),
                obj(vec![
                    ("op", s("ins_str")),
                    ("obj", arr(vec![n(70000), n(5)])),
                    ("after", n(5)),
                    ("value", s("ab")),
                ]),
            ]),
        ),
    ]);
    assert_eq!(v, expected);
}

#[test]
fn verbose_round_trip_of_all_operations() {
    let ops = sample_ops();
    let p = patch_of(70000, 1, &ops);
    let v = encode_patch_verbose(&p).unwrap();
    let (sid, time, back) = decode_verbose_ops(&v).unwrap();
    assert_eq!((sid, time), (70000, 1));
    assert_eq!(back, ops);
    let p2 = decode_patch_verbose(&v).unwrap();
    assert_eq!(p2.to_binary(), p.to_binary());
}

#[test]
fn verbose_errors_and_defaults() {
    assert!(matches!(decode_verbose_ops(&n(1)), Err(VerboseCodecError::InvalidPayload)));
    assert!(matches!(
        decode_verbose_ops(&obj(vec![("id", arr(vec![n(1)])), ("ops", arr(vec![]))])),
        Err(VerboseCodecError::InvalidPayload)
    ));
    assert!(matches!(
        decode_verbose_ops(&obj(vec![("id", arr(vec![n(1), n(2)]))])),
        Err(VerboseCodecError::InvalidPayload)
    ));
    let bad = decode_verbose_ops(&obj(vec![
        ("id", arr(vec![n(1), n(2)])),
        ("ops", arr(vec![obj(vec![("op", s("frob"))])])),
    ]));
    assert_eq!(bad.unwrap_err(), VerboseCodecError::UnknownOperation("frob".to_string()));
    assert!(matches!(
        decode_verbose_ops(&obj(vec![("id", arr(vec![n(1), n(2)])), ("ops", arr(vec![n(3)]))])),
        Err(VerboseCodecError::InvalidOperation)
    ));
    let (_, _, ops) = decode_verbose_ops(&obj(vec![
        ("id", arr(vec![n(1), n(2)])),
        (
            "ops",
            arr(vec![
                obj(vec![("op", s("new_con"))]),
                obj(vec![("op", s("ins_str")), ("obj", n(2)), ("value", s("z"))]),
                obj(vec![("op", s("nop")), ("len", n(4))]),
            ]),
        ),
    ]))
    .unwrap();
    assert_eq!(
        ops,
        vec![
            DecodedOp::NewCon { id: ts(1, 2), value: ConValue::Undef },
            DecodedOp::InsStr { id: ts(1, 3), obj: ts(1, 2), reference: ts(1, 2), data: "z".to_string() },
            DecodedOp::Nop { id: ts(1, 4), len: 4 },
        ]
    );
    let empty = Patch::from_binary(&[]).unwrap();
    assert!(matches!(encode_patch_verbose(&empty), Err(VerboseCodecError::EmptyPatch)));
}
