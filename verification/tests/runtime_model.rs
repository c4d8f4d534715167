use json_joy_core::json::{JsonNumber, JsonValue};
use json_joy_core::model::{decode_model_view, ModelError};
use json_joy_core::model_runtime::RuntimeModel;
use json_joy_core::patch::Patch;

fn patch(bytes: &[u8]) -> Patch {
    Patch::from_binary(bytes).expect("patch decodes")
}

// Session 5, time 1: new_str 5.1; root := 5.1; insert "hi" at the start of 5.1.
const MAKE_HI: [u8; 14] = [
    0x05, 0x01, 0xf7, 0x03, 0x20, 0x48, 0x80, 0x00, 0x01, 0x62, 0x01, 0x01, b'h', b'i',
];

#[test]
fn runtime_builds_string_root() {
    let mut m = RuntimeModel::new_logical_empty(5);
    assert!(m.apply_patch(&patch(&MAKE_HI)).is_ok());
    assert!(m.has_finite_view());
    assert_eq!(m.view_json(), JsonValue::String("hi".to_string()));
}

#[test]
fn runtime_delete_hides_character() {
    let mut m = RuntimeModel::new_logical_empty(5);
    m.apply_patch(&patch(&MAKE_HI)).unwrap();
    // Session 5, time 5: delete the run 5.3 (one tick) from 5.1.
    let del = [0x05, 0x05, 0xf7, 0x01, 0x81, 0x01, 0x03, 0x01];
    m.apply_patch(&patch(&del)).unwrap();
    assert_eq!(m.view_json(), JsonValue::String("i".to_string()));
}

#[test]
fn runtime_patch_applied_twice_is_applied_once() {
    let mut once = RuntimeModel::new_logical_empty(5);
    once.apply_patch(&patch(&MAKE_HI)).unwrap();
    let mut twice = RuntimeModel::new_logical_empty(5);
    twice.apply_patch(&patch(&MAKE_HI)).unwrap();
    twice.apply_patch(&patch(&MAKE_HI)).unwrap();
    assert_eq!(once.view_json(), twice.view_json());
}

#[test]
fn runtime_empty_model_views_null() {
    let m = RuntimeModel::new_logical_empty(7);
    assert!(m.has_finite_view());
    assert_eq!(m.view_json(), JsonValue::Null);
}

#[test]
fn runtime_object_register_and_constant() {
    // Session 5, time 1: new_obj 5.1; new_con 5.2 = 42; obj 5.1["a"] := 5.2; root := 5.1.
    let bytes = [
        0x05, 0x01, 0xf7, 0x04, //
        0x10, // new_obj
        0x00, 0x18, 0x2a, // new_con 42
        0x51, 0x01, 0x61, b'a', 0x02, // ins_obj, one key "a" -> 5.2
        0x48, 0x80, 0x00, 0x01, // ins_val root := 5.1
    ];
    let mut m = RuntimeModel::new_logical_empty(5);
    m.apply_patch(&patch(&bytes)).unwrap();
    assert_eq!(
        m.view_json(),
        JsonValue::Object(vec![("a".to_string(), JsonValue::Number(JsonNumber::PosInt(42)))])
    );
}

// Logical-clock model: root string node 5.1 with one chunk 5.2 "hi"; clock
// table [(5, 3)].
const MODEL_HI: [u8; 13] = [
    0x00, 0x00, 0x00, 0x06, 0x12, 0x81, 0x11, 0x62, b'h', b'i', 0x01, 0x05, 0x03,
];

#[test]
fn model_view_decodes_string_root() {
    assert_eq!(decode_model_view(&MODEL_HI), Ok(JsonValue::String("hi".to_string())));
}

#[test]
fn runtime_loads_model_and_appends() {
    let mut m = RuntimeModel::from_model_binary(&MODEL_HI).expect("model loads");
    assert_eq!(m.view_json(), JsonValue::String("hi".to_string()));
    // Session 5, time 4: insert "!" into 5.1 after slot 5.3.
    let p = [0x05, 0x04, 0xf7, 0x01, 0x61, 0x01, 0x03, b'!'];
    m.apply_patch(&patch(&p)).unwrap();
    assert_eq!(m.view_json(), JsonValue::String("hi!".to_string()));
}

#[test]
fn runtime_loads_server_clock_model() {
    // Server time 5; root constant 1.1 = 42.
    let data = [0x80, 0x05, 0x01, 0x00, 0x18, 0x2a];
    let m = RuntimeModel::from_model_binary(&data).expect("model loads");
    assert_eq!(m.view_json(), JsonValue::Number(JsonNumber::PosInt(42)));
}

#[test]
fn model_view_rejects_short_logical_header() {
    assert_eq!(decode_model_view(&[0x00, 0x01]), Err(ModelError::InvalidClockTable));
    assert!(RuntimeModel::from_model_binary(&[]).is_err());
}

#[test]
fn model_view_rejects_empty_clock_table() {
    let data = [0x00, 0x00, 0x00, 0x01, 0x00, 0x00];
    assert_eq!(decode_model_view(&data), Err(ModelError::InvalidClockTable));
}

#[test]
fn model_binary_round_trips_through_runtime() {
    let m = RuntimeModel::from_model_binary(&MODEL_HI).unwrap();
    assert_eq!(m.to_model_binary_like().unwrap(), MODEL_HI.to_vec());
    assert_eq!(m.model_binary_checked(), Some(Ok(MODEL_HI.to_vec())));
}

#[test]
fn runtime_encodes_applied_patch() {
    let mut m = RuntimeModel::new_logical_empty(5);
    m.apply_patch(&patch(&MAKE_HI)).unwrap();
    let bin = m.to_model_binary_like().unwrap();
    assert_eq!(bin, vec![0, 0, 0, 6, 0x13, 0x81, 0x11, 0x62, b'h', b'i', 0x01, 0x05, 0x04]);
    assert_eq!(decode_model_view(&bin), Ok(JsonValue::String("hi".to_string())));
}

#[test]
fn server_model_round_trips_through_runtime() {
    let bin = [0x80, 0x05, 0x01, 0x00, 0x18, 0x2a];
    let m = RuntimeModel::from_model_binary(&bin).unwrap();
    assert_eq!(m.to_model_binary_like().unwrap(), bin.to_vec());
}

#[test]
fn empty_model_encodes_null_root() {
    let m = RuntimeModel::new_logical_empty(7);
    let bin = m.to_model_binary_like().unwrap();
    assert_eq!(&bin[0..5], &[0, 0, 0, 1, 0]);
}

#[test]
fn runtime_redelivered_patch_changes_nothing() {
    let mut m = RuntimeModel::new_logical_empty(5);
    m.apply_patch(&patch(&MAKE_HI)).unwrap();
    m.apply_patch(&patch(&MAKE_HI)).unwrap();
    assert_eq!(m.view_json(), JsonValue::String("hi".to_string()));
}
