use json_joy_core::codec_sidecar_binary::{
    decode_sidecar_to_model_binary, encode_model_binary_to_sidecar, SidecarBinaryCodecError,
};
use json_joy_core::model::ModelError;
use json_joy_core::json::JsonValue;
use json_joy_core::model::decode_model_view;
use json_joy_core::model_runtime::RuntimeModel;

// Clock table: one entry, session 65536 at time 10.
const TABLE: [u8; 5] = [0x01, 0x80, 0x80, 0x04, 0x0a];

#[test]
fn sidecar_short_metadata_is_refused() {
    assert_eq!(
        decode_sidecar_to_model_binary(&[], &[0x00, 0x00, 0x01]),
        Err(SidecarBinaryCodecError::InvalidPayload)
    );
}

#[test]
fn sidecar_offset_past_end_is_refused() {
    assert_eq!(
        decode_sidecar_to_model_binary(&[], &[0x00, 0x00, 0x00, 0x09, 0x00]),
        Err(SidecarBinaryCodecError::InvalidPayload)
    );
}

#[test]
fn sidecar_empty_table_is_refused() {
    assert_eq!(
        decode_sidecar_to_model_binary(&[], &[0x00, 0x00, 0x00, 0x01, 0x00, 0x00]),
        Err(SidecarBinaryCodecError::InvalidPayload)
    );
}

#[test]
fn sidecar_without_root_decodes() {
    let mut meta = vec![0x00, 0x00, 0x00, 0x01, 0x00];
    meta.extend_from_slice(&TABLE);
    let bin = decode_sidecar_to_model_binary(&[], &meta).expect("decodes");
    let m = RuntimeModel::from_model_binary(&bin).expect("model loads");
    assert_eq!(m.view_json(), JsonValue::Null);
}

#[test]
fn sidecar_string_root_decodes() {
    // Node 65536.1: a string of one chunk 65536.2 holding two characters.
    let mut meta = vec![0x00, 0x00, 0x00, 0x04, 0x19, 0x81, 0x18, 0x02];
    meta.extend_from_slice(&TABLE);
    let view = [0x62, b'h', b'i'];
    let bin = decode_sidecar_to_model_binary(&view, &meta).expect("decodes");
    assert_eq!(decode_model_view(&bin), Ok(JsonValue::String("hi".to_string())));
}

#[test]
fn sidecar_unread_metadata_is_refused() {
    // The node part holds a byte after the string node.
    let mut meta = vec![0x00, 0x00, 0x00, 0x05, 0x19, 0x81, 0x18, 0x02, 0x00];
    meta.extend_from_slice(&TABLE);
    let view = [0x62, b'h', b'i'];
    assert_eq!(
        decode_sidecar_to_model_binary(&view, &meta),
        Err(SidecarBinaryCodecError::InvalidPayload)
    );
}

#[test]
fn sidecar_view_of_wrong_kind_is_refused() {
    let mut meta = vec![0x00, 0x00, 0x00, 0x04, 0x19, 0x81, 0x18, 0x02];
    meta.extend_from_slice(&TABLE);
    assert_eq!(
        decode_sidecar_to_model_binary(&[0x01], &meta),
        Err(SidecarBinaryCodecError::InvalidPayload)
    );
}

// A logical-clock model whose root is the string "hi" (session 5).
const MODEL_HI: [u8; 13] = [
    0x00, 0x00, 0x00, 0x06, 0x12, 0x81, 0x11, 0x62, b'h', b'i', 0x01, 0x05, 0x03,
];

#[test]
fn sidecar_round_trip_keeps_view() {
    let (view, meta) = encode_model_binary_to_sidecar(&MODEL_HI).expect("encodes");
    assert_eq!(view, vec![0x62, b'h', b'i']);
    let bin = decode_sidecar_to_model_binary(&view, &meta).expect("decodes");
    assert_eq!(decode_model_view(&bin), Ok(JsonValue::String("hi".to_string())));
}

#[test]
fn sidecar_refuses_server_clock_model() {
    let data = [0x80, 0x05, 0x01, 0x00, 0x18, 0x2a];
    assert_eq!(
        encode_model_binary_to_sidecar(&data),
        Err(SidecarBinaryCodecError::InvalidPayload)
    );
}

#[test]
fn sidecar_reports_model_error() {
    assert_eq!(
        encode_model_binary_to_sidecar(&[]),
        Err(SidecarBinaryCodecError::Model(ModelError::InvalidModelBinary))
    );
}

#[test]
fn sidecar_object_keys_are_taken_in_order() {
    // Node 65536.1: an object of two constants, 65536.2 under "a" and
    // 65536.3 under "b"; the view lists "b" first.
    let mut meta = vec![0x00, 0x00, 0x00, 0x06, 0x19, 0x42, 0x18, 0x00, 0x17, 0x00];
    meta.extend_from_slice(&TABLE);
    let view = [0xa2, 0x61, b'b', 0x02, 0x61, b'a', 0x01];
    let bin = decode_sidecar_to_model_binary(&view, &meta).expect("decodes");
    let expected = JsonValue::Object(vec![
        ("a".to_string(), JsonValue::Number(json_joy_core::json::JsonNumber::PosInt(1))),
        ("b".to_string(), JsonValue::Number(json_joy_core::json::JsonNumber::PosInt(2))),
    ]);
    assert_eq!(decode_model_view(&bin), Ok(expected));
    let (view2, _) = encode_model_binary_to_sidecar(&bin).expect("encodes");
    assert_eq!(view2, vec![0xa2, 0x61, b'a', 0x01, 0x61, b'b', 0x02]);
}

#[test]
fn sidecar_rootless_model_frames_empty_node_part() {
    // Model without a root: node part [0], then the clock table.
    let mut data = vec![0x00, 0x00, 0x00, 0x01, 0x00];
    data.extend_from_slice(&TABLE);
    let bin = decode_sidecar_to_model_binary(&[], &data).expect("decodes");
    let (view, meta) = encode_model_binary_to_sidecar(&bin).expect("encodes");
    assert!(view.is_empty());
    assert_eq!(&meta[0..5], &[0x00, 0x00, 0x00, 0x01, 0x00]);
    let back = decode_sidecar_to_model_binary(&view, &meta).expect("decodes again");
    assert_eq!(back, bin);
}
