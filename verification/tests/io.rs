use oxideterm::io::{ByteReader, ByteWriter, MemoryModemIo, ModemIo, ModemRead, ModemWrite};

#[test]
fn byte_reader_reads_from_position_and_seeks() {
    let mut reader = ByteReader::new(b"abcdef".to_vec());
    assert_eq!(reader.read_chunk(4).unwrap(), b"abcd");
    assert_eq!(reader.read_chunk(4).unwrap(), b"ef");
    assert_eq!(reader.read_chunk(4).unwrap(), b"");
    reader.seek_to(1).unwrap();
    assert_eq!(reader.read_chunk(2).unwrap(), b"bc");
    reader.seek_to(100).unwrap();
    assert_eq!(reader.read_chunk(2).unwrap(), b"");
}

#[test]
fn byte_writer_keeps_files_and_announcements() {
    let mut writer = ByteWriter::new();
    writer.open_file(&"a".to_string(), Some(2)).unwrap();
    writer.write_all(b"xy").unwrap();
    writer.open_file(&"b".to_string(), None).unwrap();
    writer.write_all(b"z").unwrap();
    writer.flush().unwrap();
    assert_eq!(writer.file_count(), 2);
    assert_eq!(writer.file_announcement(1), Some(("b".to_string(), None)));
    assert_eq!(writer.file_announcement(2), None);
    assert_eq!(writer.file_bytes(0).unwrap(), b"xy");
    assert_eq!(writer.file_bytes(1).unwrap(), b"z");
    assert_eq!(writer.file_bytes(2), None);
}

#[test]
fn memory_channel_writes_never_fail() {
    let mut io = MemoryModemIo::with_input(Vec::new());
    io.write_all(b"abc").unwrap();
    assert_eq!(io.take_output(), b"abc");
    assert!(io.read_byte(0).is_err());
}
