use oxideterm::error::{ModemError, ModemTransferError};
use oxideterm::zfile::{build_zfile_header, parse_zfile_header};

#[test]
fn zfile_header_round_trips() {
    let bytes = build_zfile_header("report.pdf", 1234);
    assert_eq!(bytes, b"report.pdf\x001234".to_vec());
    let parsed = parse_zfile_header(&bytes).unwrap();
    assert_eq!(parsed, Some(("report.pdf".to_string(), Some(1234))));
}

#[test]
fn zfile_metadata_takes_the_first_word_only() {
    let parsed = parse_zfile_header(b"a.bin\x00  77 1700000000 100644 0").unwrap();
    assert_eq!(parsed, Some(("a.bin".to_string(), Some(77))));
    let parsed = parse_zfile_header(b"a.bin\x00").unwrap();
    assert_eq!(parsed, Some(("a.bin".to_string(), None)));
    let parsed = parse_zfile_header(b"a.bin\x00\xe3\x80\x80+5").unwrap();
    assert_eq!(parsed, Some(("a.bin".to_string(), Some(5))));
}

#[test]
fn zfile_header_errors() {
    assert!(matches!(
        parse_zfile_header(b"no-terminator"),
        Err(ModemTransferError::Protocol(ModemError::InvalidLength))
    ));
    assert!(matches!(parse_zfile_header(b"\x00rest"), Ok(None)));
    assert!(matches!(
        parse_zfile_header(b"../x\x001"),
        Err(ModemTransferError::Protocol(ModemError::InvalidFileName))
    ));
    assert!(matches!(
        parse_zfile_header(b"..\x001"),
        Err(ModemTransferError::Protocol(ModemError::InvalidFileName))
    ));
    assert!(matches!(
        parse_zfile_header(b"x\x0012z"),
        Err(ModemTransferError::Protocol(ModemError::InvalidLength))
    ));
    assert!(matches!(
        parse_zfile_header(b"x\x00\xc3\xa9"),
        Err(ModemTransferError::Protocol(ModemError::InvalidLength))
    ));
}

#[test]
fn zfile_name_with_invalid_utf8_is_decoded_lossily() {
    let bytes = vec![b'a', 0xff, b'b', 0, b'1', b'2', b' ', b'0', 0];
    let (name, size) = parse_zfile_header(&bytes).expect("header").expect("file");
    assert_eq!(name, "a\u{FFFD}b");
    assert_eq!(size, Some(12));
}
