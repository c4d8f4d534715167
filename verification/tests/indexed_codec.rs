use json_joy_core::codec_indexed_binary::decode::{
    decode_clock_table, decode_fields_to_model_binary, decode_indexed_id, decode_node_payload, from_base36,
    parse_field_id,
};
use json_joy_core::codec_indexed_binary::{encode_model_binary_to_fields, encode_node_payload, to_base36, IndexedBinaryCodecError};
use json_joy_core::crdt_binary::LogicalClockBase;
use json_joy_core::json::{JsonNumber, JsonValue};
use json_joy_core::model_runtime::types::{ConCell, RuntimeNode};
use json_joy_core::patch::Timestamp;

// Logical-clock model: root string node 5.1 with one chunk 5.2 "hi"; clock
// table [(5, 3)].
const MODEL_HI: [u8; 13] = [
    0x00, 0x00, 0x00, 0x06, 0x12, 0x81, 0x11, 0x62, b'h', b'i', 0x01, 0x05, 0x03,
];

fn table() -> Vec<LogicalClockBase> {
    vec![LogicalClockBase { sid: 5, time: 3 }]
}

fn fields(list: &[(&str, &[u8])]) -> Vec<(String, Vec<u8>)> {
    list.iter().map(|(k, v)| (k.to_string(), v.to_vec())).collect()
}

#[test]
fn base36_writes_and_reads_numbers() {
    assert_eq!(to_base36(0), "0");
    assert_eq!(to_base36(35), "z");
    assert_eq!(to_base36(36), "10");
    assert_eq!(to_base36(u64::MAX), "3w5e11264sgsf");
    assert_eq!(from_base36("10"), Some(36));
    assert_eq!(from_base36("Z"), Some(35));
    assert_eq!(from_base36(""), Some(0));
    assert_eq!(from_base36("3w5e11264sgsf"), Some(u64::MAX));
    assert_eq!(from_base36("3w5e11264sgsg"), None);
    assert_eq!(from_base36("1-"), None);
}

#[test]
fn model_encodes_to_fields() {
    let f = encode_model_binary_to_fields(&MODEL_HI).unwrap();
    assert_eq!(
        f,
        fields(&[("c", &[1, 5, 3]), ("r", &[0x01]), ("0_1", &[0x81, 0x02, 0x62, b'h', b'i'])])
    );
}

#[test]
fn fields_decode_back_to_model_binary() {
    let f = encode_model_binary_to_fields(&MODEL_HI).unwrap();
    assert_eq!(decode_fields_to_model_binary(&f), Ok(MODEL_HI.to_vec()));
}

#[test]
fn fields_without_clock_table_are_refused() {
    let f = fields(&[("r", &[0x01])]);
    assert_eq!(decode_fields_to_model_binary(&f), Err(IndexedBinaryCodecError::InvalidFields));
}

#[test]
fn fields_with_bad_node_name_are_refused() {
    let f = fields(&[("c", &[1, 5, 3]), ("01", &[0x20, 0x01])]);
    assert_eq!(decode_fields_to_model_binary(&f), Err(IndexedBinaryCodecError::InvalidFields));
}

#[test]
fn fields_with_bad_payload_are_refused() {
    let f = fields(&[("c", &[1, 5, 3]), ("0_1", &[0xe0])]);
    assert_eq!(decode_fields_to_model_binary(&f), Err(IndexedBinaryCodecError::InvalidNode));
}

#[test]
fn fields_with_register_cycle_are_refused() {
    let f = fields(&[("c", &[1, 5, 3]), ("r", &[0x01]), ("0_1", &[0x20, 0x01])]);
    assert_eq!(decode_fields_to_model_binary(&f), Err(IndexedBinaryCodecError::InvalidFields));
}

#[test]
fn field_names_give_identifiers() {
    let ct = table();
    assert_eq!(parse_field_id("0_1", &ct), Ok(Timestamp { sid: 5, time: 1 }));
    assert_eq!(parse_field_id("0_A", &ct), Ok(Timestamp { sid: 5, time: 10 }));
    assert_eq!(parse_field_id("1_1", &ct), Err(IndexedBinaryCodecError::InvalidFields));
    assert_eq!(parse_field_id("01", &ct), Err(IndexedBinaryCodecError::InvalidFields));
}

#[test]
fn root_field_identifiers() {
    let ct = table();
    assert_eq!(decode_indexed_id(&[0x01], &ct), Ok(Timestamp { sid: 5, time: 1 }));
    assert_eq!(decode_indexed_id(&[0x00, 0x07], &ct), Ok(Timestamp { sid: 5, time: 0 }));
    assert_eq!(decode_indexed_id(&[0x80, 0x07], &ct), Ok(Timestamp { sid: 5, time: 7 }));
    assert_eq!(decode_indexed_id(&[0x80, 0x07, 0x00], &ct), Err(IndexedBinaryCodecError::InvalidFields));
    assert_eq!(decode_indexed_id(&[0x10], &ct), Err(IndexedBinaryCodecError::InvalidFields));
    assert_eq!(decode_indexed_id(&[], &ct), Err(IndexedBinaryCodecError::InvalidFields));
}

#[test]
fn clock_table_field() {
    assert_eq!(decode_clock_table(&[1, 5, 3]), Ok(table()));
    assert_eq!(decode_clock_table(&[0]), Err(IndexedBinaryCodecError::InvalidFields));
    assert_eq!(decode_clock_table(&[1, 5, 3, 9]), Err(IndexedBinaryCodecError::InvalidFields));
    assert_eq!(decode_clock_table(&[2, 5, 3]), Err(IndexedBinaryCodecError::InvalidFields));
}

#[test]
fn node_payloads_decode() {
    let ct = table();
    match decode_node_payload(&[0x00, 0xf7], &ct) {
        Ok(RuntimeNode::Con(ConCell::Undef)) => {}
        other => panic!("unexpected {:?}", other),
    }
    match decode_node_payload(&[0x00, 0x18, 0x2a], &ct) {
        Ok(RuntimeNode::Con(ConCell::Json(JsonValue::Number(JsonNumber::PosInt(42))))) => {}
        other => panic!("unexpected {:?}", other),
    }
    match decode_node_payload(&[0x20, 0x01], &ct) {
        Ok(RuntimeNode::Val(t)) => assert_eq!(t, Timestamp { sid: 5, time: 1 }),
        other => panic!("unexpected {:?}", other),
    }
    assert!(matches!(decode_node_payload(&[0x20, 0x01, 0x00], &ct), Err(IndexedBinaryCodecError::InvalidNode)));
    assert!(matches!(decode_node_payload(&[0xe0], &ct), Err(IndexedBinaryCodecError::InvalidNode)));
    assert!(matches!(decode_node_payload(&[], &ct), Err(IndexedBinaryCodecError::InvalidNode)));
}

#[test]
fn string_payload_round_trips() {
    let ct = table();
    let payload = [0x81, 0x02, 0x62, b'h', b'i'];
    let node = decode_node_payload(&payload, &ct).unwrap();
    match &node {
        RuntimeNode::Str(atoms) => {
            assert_eq!(atoms.len(), 2);
            assert_eq!(atoms[0].slot, Timestamp { sid: 5, time: 2 });
            assert_eq!(atoms[1].ch, Some('i'));
        }
        other => panic!("unexpected {:?}", other),
    }
    assert_eq!(encode_node_payload(&node, &ct), Ok(payload.to_vec()));
}

#[test]
fn vector_and_binary_payloads_decode() {
    let ct = table();
    // A vector of three slots, the middle one holding 5.4.
    match decode_node_payload(&[0x63, 0x00, 0x01, 0x04, 0x00], &ct) {
        Ok(RuntimeNode::Vec(es)) => assert_eq!(es, vec![(1, Timestamp { sid: 5, time: 4 })]),
        other => panic!("unexpected {:?}", other),
    }
    // A binary chunk at 5.2: two live bytes.
    match decode_node_payload(&[0xa1, 0x02, 0x02, 0xaa, 0xbb], &ct) {
        Ok(RuntimeNode::Bin(atoms)) => {
            assert_eq!(atoms.len(), 2);
            assert_eq!(atoms[1].slot, Timestamp { sid: 5, time: 3 });
            assert_eq!(atoms[1].byte, Some(0xbb));
        }
        other => panic!("unexpected {:?}", other),
    }
}
