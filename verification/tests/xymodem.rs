use oxideterm::crc::{crc16_xmodem, crc32_ieee};
use oxideterm::error::ModemError;
use oxideterm::xymodem::{checksum, XyBlock, XyBlockSize, YmodemFileHeader, CPMEOF, SOH, STX};

#[test]
fn xmodem_crc_block_round_trips() {
    let block = XyBlock::new(1, XyBlockSize::Bytes128, b"hello").unwrap();
    let encoded = block.encode_crc();
    let parsed = XyBlock::parse_crc(&encoded).unwrap();
    assert_eq!(parsed.number, 1);
    assert_eq!(&parsed.payload[..5], b"hello");
    assert!(parsed.payload[5..].iter().all(|byte| *byte == CPMEOF));
}

#[test]
fn xmodem_block_rejects_bad_number_complement() {
    let block = XyBlock::new(7, XyBlockSize::Bytes128, b"hello").unwrap();
    let mut encoded = block.encode_crc();
    encoded[2] = 7;
    assert_eq!(
        XyBlock::parse_crc(&encoded),
        Err(ModemError::InvalidBlockNumber)
    );
}

#[test]
fn ymodem_header_round_trips() {
    let header = YmodemFileHeader::new("firmware.bin", Some(4096)).unwrap();
    let parsed =
        YmodemFileHeader::parse_block0_payload(&header.encode_block0_payload().unwrap())
            .unwrap()
            .unwrap();
    assert_eq!(parsed.file_name, "firmware.bin");
    assert_eq!(parsed.file_size, Some(4096));
}

#[test]
fn ymodem_header_rejects_paths() {
    assert_eq!(
        YmodemFileHeader::new("../secret", Some(1)),
        Err(ModemError::InvalidFileName)
    );
    assert_eq!(
        YmodemFileHeader::new("/tmp/secret", Some(1)),
        Err(ModemError::InvalidFileName)
    );
}

#[test]
fn crc_check_values_match_the_standard_catalogue() {
    assert_eq!(crc16_xmodem(b"123456789"), 0x31c3);
    assert_eq!(crc32_ieee(b"123456789"), 0xcbf4_3926);
    assert_eq!(crc16_xmodem(b""), 0);
}

#[test]
fn checksum_is_the_byte_sum_modulo_256() {
    assert_eq!(checksum(&[0xff, 0x02, 0x03]), 0x04);
    assert_eq!(checksum(b""), 0);
}

#[test]
fn block_sizes_and_markers_correspond() {
    assert_eq!(XyBlockSize::Bytes128.len(), 128);
    assert_eq!(XyBlockSize::Bytes1024.len(), 1024);
    assert_eq!(XyBlockSize::Bytes128.marker(), SOH);
    assert_eq!(XyBlockSize::Bytes1024.marker(), STX);
    assert_eq!(XyBlockSize::from_marker(STX), Some(XyBlockSize::Bytes1024));
    assert_eq!(XyBlockSize::from_marker(0x55), None);
}

#[test]
fn oversized_payload_is_refused() {
    assert_eq!(
        XyBlock::new(1, XyBlockSize::Bytes128, &[0u8; 129]),
        Err(ModemError::InvalidLength)
    );
}

#[test]
fn checksum_block_round_trips_and_detects_corruption() {
    let block = XyBlock::new(3, XyBlockSize::Bytes128, b"abc").unwrap();
    let mut encoded = block.encode_checksum();
    assert_eq!(encoded.len(), 3 + 128 + 1);
    let parsed = XyBlock::parse_checksum(&encoded).unwrap();
    assert_eq!(parsed, block);
    encoded[4] ^= 1;
    assert_eq!(XyBlock::parse_checksum(&encoded), Err(ModemError::InvalidChecksum));
}

#[test]
fn crc_block_detects_corruption() {
    let block = XyBlock::new(3, XyBlockSize::Bytes1024, b"abc").unwrap();
    let mut encoded = block.encode_crc();
    assert_eq!(encoded[0], STX);
    encoded[10] ^= 1;
    assert_eq!(XyBlock::parse_crc(&encoded), Err(ModemError::InvalidCrc));
    assert_eq!(XyBlock::parse_crc(&encoded[..10]), Err(ModemError::Incomplete));
}

#[test]
fn block_zero_without_size_and_end_of_batch() {
    let header = YmodemFileHeader::new("a.txt", None).unwrap();
    let payload = header.encode_block0_payload().unwrap();
    assert_eq!(payload.len(), 128);
    let parsed = YmodemFileHeader::parse_block0_payload(&payload).unwrap().unwrap();
    assert_eq!(parsed.file_name, "a.txt");
    assert_eq!(parsed.file_size, None);
    assert_eq!(YmodemFileHeader::parse_block0_payload(&[0u8; 128]), Ok(None));
    assert_eq!(
        YmodemFileHeader::parse_block0_payload(b"abc"),
        Err(ModemError::InvalidLength)
    );
}

#[test]
fn block0_name_with_invalid_utf8_is_decoded_lossily() {
    let mut payload = vec![b'a', 0xff, b'b', 0, b'7', 0];
    payload.resize(128, 0);
    let header = YmodemFileHeader::parse_block0_payload(&payload)
        .expect("header")
        .expect("file");
    assert_eq!(header.file_name, "a\u{FFFD}b");
    assert_eq!(header.file_size, Some(7));
}
