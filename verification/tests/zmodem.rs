use oxideterm::error::ModemError;
use oxideterm::zmodem_transfer::parse_zmodem_header_prefix;
use oxideterm::zmodem::{
    decode_zdle_payload, encode_bin16_header, encode_bin32_header, encode_hex_header,
    parse_binary_header, parse_hex_header, position_header, push_zdle_escaped,
    push_zdle_escaped_with_control, ZDataEnd, ZFrameType, ZHeaderEncoding, XON, ZDLE,
};

#[test]
fn hex_header_round_trips() {
    let encoded = encode_hex_header(ZFrameType::ZrqInit, position_header(0), true);
    let parsed = parse_hex_header(&encoded).unwrap();
    assert_eq!(parsed.frame_type, ZFrameType::ZrqInit);
    assert_eq!(parsed.position_u32(), 0);
    assert_eq!(parsed.encoding, ZHeaderEncoding::Hex);
}

#[test]
fn hex_header_rejects_bad_crc() {
    let mut encoded = encode_hex_header(ZFrameType::ZrInit, position_header(7), true);
    encoded[16] = b'0';
    assert_eq!(parse_hex_header(&encoded), Err(ModemError::InvalidCrc));
}

#[test]
fn binary_16_header_round_trips() {
    let encoded = encode_bin16_header(ZFrameType::ZData, position_header(4096));
    let parsed = parse_binary_header(&encoded).unwrap();
    assert_eq!(parsed.frame_type, ZFrameType::ZData);
    assert_eq!(parsed.position_u32(), 4096);
    assert_eq!(parsed.encoding, ZHeaderEncoding::Bin16);
}

#[test]
fn binary_32_header_round_trips() {
    let encoded = encode_bin32_header(ZFrameType::ZFile, position_header(0));
    let parsed = parse_binary_header(&encoded).unwrap();
    assert_eq!(parsed.frame_type, ZFrameType::ZFile);
    assert_eq!(parsed.encoding, ZHeaderEncoding::Bin32);
}

#[test]
fn zdle_payload_decodes_escaped_control_bytes() {
    let mut encoded = Vec::new();
    push_zdle_escaped(&mut encoded, ZDLE);
    push_zdle_escaped(&mut encoded, XON);
    assert_eq!(decode_zdle_payload(&encoded, 2).unwrap(), vec![ZDLE, XON]);
}

#[test]
fn frame_type_codes_round_trip() {
    for code in 0u8..=19 {
        let frame = ZFrameType::from_byte(code).expect("known frame type");
        assert_eq!(frame.code(), code);
    }
    assert_eq!(ZFrameType::from_byte(20), None);
}

#[test]
fn position_header_is_little_endian() {
    assert_eq!(position_header(0x0102_0304), [4, 3, 2, 1]);
}

#[test]
fn hex_header_has_the_documented_shape() {
    let encoded = encode_hex_header(ZFrameType::ZrInit, position_header(0), true);
    assert_eq!(&encoded[..4], b"**\x18B");
    assert_eq!(&encoded[4..6], b"01");
    assert_eq!(*encoded.last().unwrap(), XON);
    let without_xon = encode_hex_header(ZFrameType::ZFin, position_header(0), false);
    assert_eq!(without_xon.len(), encoded.len() - 1);
}

#[test]
fn binary_header_detects_corruption() {
    let mut encoded = encode_bin32_header(ZFrameType::ZData, position_header(9));
    let last = encoded.len() - 1;
    encoded[last] ^= 0x01;
    assert!(parse_binary_header(&encoded).is_err());
}

#[test]
fn control_escaping_covers_control_bytes_only_when_asked() {
    let mut plain = Vec::new();
    push_zdle_escaped_with_control(&mut plain, 0x01, false);
    assert_eq!(plain, vec![0x01]);
    let mut escaped = Vec::new();
    push_zdle_escaped_with_control(&mut escaped, 0x01, true);
    assert_eq!(escaped, vec![ZDLE, 0x41]);
    assert_eq!(decode_zdle_payload(&escaped, 1).unwrap(), vec![0x01]);
}

#[test]
fn data_end_markers_round_trip() {
    for end in [ZDataEnd::End, ZDataEnd::Continue, ZDataEnd::ContinueWithAck, ZDataEnd::EndWithAck] {
        assert_eq!(ZDataEnd::from_marker(end.marker()), Some(end));
    }
    assert_eq!(ZDataEnd::from_marker(b'z'), None);
}

#[test]
fn header_prefix_waits_on_every_prefix_of_a_hex_header() {
    let encoded = encode_hex_header(ZFrameType::ZFile, position_header(9), true);
    let lf_end = encoded.len() - 1;
    for k in 0..lf_end {
        assert_eq!(parse_zmodem_header_prefix(&encoded[..k]), Ok(None), "prefix {k}");
    }
    let whole = parse_zmodem_header_prefix(&encoded).unwrap().unwrap();
    assert_eq!(whole.frame_type, ZFrameType::ZFile);
    assert_eq!(whole.position_u32(), 9);
    assert_eq!(parse_zmodem_header_prefix(b"line noise without a pad"), Ok(None));
}
