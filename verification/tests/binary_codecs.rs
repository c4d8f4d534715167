use json_joy_core::crdt_binary::{
    first_logical_clock_sid_time, parse_logical_clock_table, read_b1vu56, read_vu57, write_b1vu56,
    write_vu57, LogicalClockBase,
};
use json_joy_core::patch_clock_codec::{
    decode_clock_table, decode_relative_timestamp, decode_with_clock_table, encode_clock_table,
    encode_relative_timestamp, PatchClockCodecError,
};
use json_joy_core::patch::Timestamp;

#[test]
fn vu57_small_values_take_one_byte() {
    let mut out = Vec::new();
    write_vu57(&mut out, 0);
    write_vu57(&mut out, 127);
    assert_eq!(out, vec![0x00, 0x7f]);
}

#[test]
fn vu57_two_bytes() {
    let mut out = Vec::new();
    write_vu57(&mut out, 128);
    assert_eq!(out, vec![0x80, 0x01]);
    let mut pos = 0;
    assert_eq!(read_vu57(&out, &mut pos), Some(128));
    assert_eq!(pos, 2);
}

#[test]
fn vu57_roundtrip_many_values() {
    let values = [0u64, 1, 127, 128, 300, 16_383, 16_384, 1 << 21, (1 << 49) - 1, 1 << 49, (1 << 56) + 12345, (1 << 57) - 1];
    for v in values {
        let mut out = vec![0xaa];
        write_vu57(&mut out, v);
        out.push(0xbb);
        let mut pos = 1;
        assert_eq!(read_vu57(&out, &mut pos), Some(v));
        assert_eq!(pos, out.len() - 1);
    }
}

#[test]
fn vu57_max_is_eight_bytes() {
    let mut out = Vec::new();
    write_vu57(&mut out, (1 << 57) - 1);
    assert_eq!(out.len(), 8);
    assert_eq!(out[7], 0xff);
}

#[test]
fn vu57_truncated_input() {
    let mut pos = 0;
    assert_eq!(read_vu57(&[0x80], &mut pos), None);
    let mut pos = 5;
    assert_eq!(read_vu57(&[0x01], &mut pos), None);
    assert_eq!(pos, 5);
}

#[test]
fn b1vu56_roundtrip_and_flag() {
    let values = [0u64, 63, 64, 8191, 8192, 1 << 20, (1 << 48) - 1, 1 << 48, (1 << 56) - 1];
    for flag in [0u8, 1, 3] {
        for v in values {
            let mut out = Vec::new();
            write_b1vu56(&mut out, flag, v);
            let mut pos = 0;
            assert_eq!(read_b1vu56(&out, &mut pos), Some((flag & 1, v)));
            assert_eq!(pos, out.len());
        }
    }
}

#[test]
fn b1vu56_first_byte_layout() {
    let mut out = Vec::new();
    write_b1vu56(&mut out, 1, 5);
    assert_eq!(out, vec![0x85]);
    let mut out = Vec::new();
    write_b1vu56(&mut out, 0, 64);
    assert_eq!(out, vec![0x40, 0x01]);
}

#[test]
fn clock_table_in_model_binary() {
    // offset 2 past the header: two root bytes, then a table of one entry.
    let mut data = vec![0, 0, 0, 2, 0xff, 0xff];
    write_vu57(&mut data, 1);
    write_vu57(&mut data, 70_000);
    write_vu57(&mut data, 9);
    let (offset, table) = parse_logical_clock_table(&data).unwrap();
    assert_eq!(offset, 2);
    assert_eq!(table, vec![LogicalClockBase { sid: 70_000, time: 9 }]);
    assert_eq!(first_logical_clock_sid_time(&data), Some((70_000, 9)));
}

#[test]
fn clock_table_rejects_server_marker_and_empty_table() {
    assert_eq!(parse_logical_clock_table(&[0x80, 0, 0, 0, 1]), None);
    assert_eq!(parse_logical_clock_table(&[0, 0, 0, 0, 0]), None);
    assert_eq!(parse_logical_clock_table(&[0, 0]), None);
}

#[test]
fn clock_table_codec_roundtrip() {
    let table = vec![
        LogicalClockBase { sid: 65_536, time: 0 },
        LogicalClockBase { sid: 123_456_789, time: 1 << 40 },
    ];
    let bytes = encode_clock_table(&table);
    assert_eq!(decode_clock_table(&bytes).unwrap(), table);
}

#[test]
fn clock_table_codec_errors() {
    assert_eq!(decode_clock_table(&[0]), Err(PatchClockCodecError::InvalidClockTable));
    assert_eq!(decode_clock_table(&[1, 1]), Err(PatchClockCodecError::InvalidClockTable));
    assert_eq!(decode_clock_table(&[1, 1, 1, 0]), Err(PatchClockCodecError::InvalidClockTable));
}

#[test]
fn relative_timestamp_compact_and_wide() {
    assert_eq!(encode_relative_timestamp(3, 9), vec![0x39]);
    assert_eq!(decode_relative_timestamp(&[0x39]).unwrap(), (3, 9));
    let wide = encode_relative_timestamp(8, 300);
    assert!(wide[0] >= 0x80);
    assert_eq!(decode_relative_timestamp(&wide).unwrap(), (8, 300));
    assert_eq!(decode_relative_timestamp(&[]), Err(PatchClockCodecError::InvalidRelativeId));
    let mut trailing = wide.clone();
    trailing.push(0);
    assert_eq!(decode_relative_timestamp(&trailing), Err(PatchClockCodecError::InvalidRelativeId));
}

#[test]
fn relative_timestamp_against_table() {
    let table = vec![LogicalClockBase { sid: 70_000, time: 10 }];
    assert_eq!(decode_with_clock_table(&table, 0, 4).unwrap(), Timestamp { sid: 0, time: 4 });
    assert_eq!(decode_with_clock_table(&table, 1, 4).unwrap(), Timestamp { sid: 70_000, time: 6 });
    assert_eq!(decode_with_clock_table(&table, 1, 11), Err(PatchClockCodecError::InvalidRelativeId));
    assert_eq!(decode_with_clock_table(&table, 2, 0), Err(PatchClockCodecError::InvalidRelativeId));
}
