use json_joy_core::json::JsonValue;
use json_joy_core::model_runtime::RuntimeModel;
use json_joy_core::patch::{ConValue, DecodedOp, Patch, Timespan, Timestamp};
use json_joy_core::patch_builder::encode_patch_from_ops;

fn ts(sid: u64, time: u64) -> Timestamp {
    Timestamp { sid, time }
}

fn apply_ops(runtime: &mut RuntimeModel, sid: u64, time: u64, ops: &[DecodedOp]) {
    let bytes = encode_patch_from_ops(sid, time, ops).expect("encode patch");
    let patch = Patch::from_binary(&bytes).expect("decode patch");
    runtime.apply_patch(&patch).expect("apply patch");
}

#[test]
fn upstream_port_arr_find_and_interval_matrix() {
    let sid = 99210;
    let mut runtime = RuntimeModel::new_logical_empty(sid);
    let arr = ts(sid, 1);
    let t = ts(sid, 3);
    let f = ts(sid, 4);
    let n = ts(sid, 5);
    apply_ops(
        &mut runtime,
        sid,
        1,
        &[
            DecodedOp::NewArr { id: arr },
            DecodedOp::InsVal {
                id: ts(sid, 2),
                obj: ts(0, 0),
                val: arr,
            },
            DecodedOp::NewCon {
                id: t,
                value: ConValue::Json(JsonValue::Bool(true)),
            },
            DecodedOp::NewCon {
                id: f,
                value: ConValue::Json(JsonValue::Bool(false)),
            },
            DecodedOp::NewCon {
                id: n,
                value: ConValue::Json(JsonValue::Null),
            },
            DecodedOp::InsArr {
                id: ts(sid, 6),
                obj: arr,
                reference: arr,
                data: vec![f, t, t],
            },
            DecodedOp::InsArr {
                id: ts(sid, 9),
                obj: arr,
                reference: ts(sid, 8),
                data: vec![f, t, t],
            },
            DecodedOp::InsArr {
                id: ts(sid, 12),
                obj: arr,
                reference: ts(sid, 11),
                data: vec![f, t, n],
            },
        ],
    );

    assert_eq!(runtime.array_find(arr, 0), Some(ts(sid, 6)));
    assert_eq!(runtime.array_find(arr, 5), Some(ts(sid, 11)));
    assert_eq!(runtime.array_find(arr, 8), Some(ts(sid, 14)));
    assert_eq!(runtime.array_find(arr, 9), None);

    let spans = runtime.array_find_interval(arr, 2, 5);
    assert_eq!(
        spans,
        vec![Timespan {
            sid,
            time: 8,
            span: 5
        }]
    );
}

#[test]
fn upstream_port_bin_find_and_interval_matrix() {
    let sid = 99211;
    let mut runtime = RuntimeModel::new_logical_empty(sid);
    let bin = ts(sid, 1);
    apply_ops(
        &mut runtime,
        sid,
        1,
        &[
            DecodedOp::NewBin { id: bin },
            DecodedOp::InsVal {
                id: ts(sid, 2),
                obj: ts(0, 0),
                val: bin,
            },
            DecodedOp::InsBin {
                id: ts(sid, 3),
                obj: bin,
                reference: bin,
                data: vec![1, 2, 3],
            },
            DecodedOp::Nop {
                id: ts(sid, 6),
                len: 123,
            },
            DecodedOp::InsBin {
                id: ts(sid, 129),
                obj: bin,
                reference: ts(sid, 5),
                data: vec![4, 5, 6],
            },
            DecodedOp::Nop {
                id: ts(sid, 132),
                len: 10,
            },
            DecodedOp::InsBin {
                id: ts(sid, 142),
                obj: bin,
                reference: ts(sid, 131),
                data: vec![7, 8, 9],
            },
        ],
    );

    assert_eq!(runtime.bin_find(bin, 2), Some(ts(sid, 5)));
    assert_eq!(runtime.bin_find(bin, 6), Some(ts(sid, 142)));
    assert_eq!(runtime.bin_find(bin, 9), None);

    let spans = runtime.bin_find_interval(bin, 1, 7);
    assert_eq!(
        spans,
        vec![
            Timespan {
                sid,
                time: 4,
                span: 2
            },
            Timespan {
                sid,
                time: 129,
                span: 3
            },
            Timespan {
                sid,
                time: 142,
                span: 2
            }
        ]
    );
}

#[test]
fn upstream_port_string_find_and_interval_matrix() {
    let sid = 99212;
    let mut runtime = RuntimeModel::new_logical_empty(sid);
    let str_id = ts(sid, 1);
    apply_ops(
        &mut runtime,
        sid,
        1,
        &[
            DecodedOp::NewStr { id: str_id },
            DecodedOp::InsVal {
                id: ts(sid, 2),
                obj: ts(0, 0),
                val: str_id,
            },
            DecodedOp::InsStr {
                id: ts(sid, 3),
                obj: str_id,
                reference: str_id,
                data: "abc".to_string(),
            },
            DecodedOp::Nop {
                id: ts(sid, 6),
                len: 123,
            },
            DecodedOp::InsStr {
                id: ts(sid, 129),
                obj: str_id,
                reference: ts(sid, 5),
                data: "def".to_string(),
            },
            DecodedOp::Nop {
                id: ts(sid, 132),
                len: 10,
            },
            DecodedOp::InsStr {
                id: ts(sid, 142),
                obj: str_id,
                reference: ts(sid, 131),
                data: "ghi".to_string(),
            },
        ],
    );

    assert_eq!(runtime.string_find(str_id, 2), Some(ts(sid, 5)));
    assert_eq!(runtime.string_find(str_id, 6), Some(ts(sid, 142)));
    assert_eq!(runtime.string_find(str_id, 9), None);

    let spans = runtime.string_find_interval(str_id, 1, 7);
    assert_eq!(
        spans,
        vec![
            Timespan {
                sid,
                time: 4,
                span: 2
            },
            Timespan {
                sid,
                time: 129,
                span: 3
            },
            Timespan {
                sid,
                time: 142,
                span: 2
            }
        ]
    );
}
