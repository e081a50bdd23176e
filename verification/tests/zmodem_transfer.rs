use oxideterm::error::{ModemError, ModemTransferError};
use oxideterm::io::{ByteReader, ByteWriter, MemoryModemIo};
use oxideterm::zfile::{build_zfile_header, parse_zfile_header};
use oxideterm::zmodem::{
    encode_bin16_header, encode_bin32_header_with_escape, encode_hex_header, position_header,
    ZDataEnd, ZFrameType, XON,
};
use oxideterm::zmodem_transfer::{
    finish_zmodem_receive, parse_zmodem_header_prefix, read_zmodem_data, read_zmodem_header,
    receive_zmodem, receive_zmodem_file_data, send_zmodem, send_zmodem_stream, write_zdata, zfile_binary_flags,
    zrinit_flags, zmodem_ack_reply, zmodem_end_reply, zmodem_offer_reply, ZAckReply, ZFileReply,
    ZmodemSendEntry, ZmodemSendStreamEntry, ZMODEM_MAX_CHUNK,
};

#[test]
fn zmodem_receive_responds_to_zrqinit() {
    let mut input = encode_hex_header(ZFrameType::ZrqInit, position_header(0), true);
    input.extend(encode_hex_header(ZFrameType::ZFin, position_header(0), false));
    input.extend_from_slice(b"OO");
    let mut io = MemoryModemIo::with_input(input);
    let mut sink = ByteWriter::new();
    let received = receive_zmodem(&mut io, &mut sink).expect("zmodem receive");
    let output = io.take_output();
    assert!(received.is_empty());
    assert!(output.starts_with(&encode_hex_header(ZFrameType::ZrInit, zrinit_flags(), true)));
    assert!(!output.ends_with(b"OO"));
}

#[test]
fn zmodem_send_waits_for_zrinit_and_emits_zfile() {
    let input = encode_hex_header(ZFrameType::ZrInit, zrinit_flags(), true);
    let mut io = MemoryModemIo::with_input(input);
    let result = send_zmodem(
        &mut io,
        &[ZmodemSendEntry {
            file_name: "hello.txt".to_string(),
            bytes: b"hello".to_vec(),
        }],
    );
    assert!(matches!(result, Err(ModemTransferError::Timeout)));
    let output = io.take_output();
    assert!(output.starts_with(&encode_bin32_header_with_escape(
        ZFrameType::ZFile,
        zfile_binary_flags(),
        true,
    )));
}

#[test]
fn zcrcw_data_releases_software_flow_control() {
    let mut io = MemoryModemIo::default();

    write_zdata(&mut io, b"header", ZDataEnd::EndWithAck, true, true).unwrap();

    assert_eq!(io.take_output().last(), Some(&XON));
}

#[test]
fn zmodem_send_resumes_from_zrpos_offset() {
    let mut input = encode_hex_header(ZFrameType::ZrInit, zrinit_flags(), true);
    input.extend(encode_hex_header(ZFrameType::ZRpos, position_header(3), true));
    input.extend(encode_hex_header(ZFrameType::ZrInit, zrinit_flags(), true));
    input.extend(encode_hex_header(ZFrameType::ZFin, position_header(0), false));
    let mut io = MemoryModemIo::with_input(input);
    let mut entries = vec![ZmodemSendStreamEntry {
        file_name: "payload.bin".to_string(),
        file_size: 6,
        reader: ByteReader::new(b"abcdef".to_vec()),
    }];

    let sent = send_zmodem_stream(&mut io, &mut entries).expect("zmodem send");
    let output = io.take_output();

    assert_eq!(sent, 6);
    assert!(output.windows(3).any(|window| window == b"def"));
    assert!(!output.windows(3).any(|window| window == b"abc"));
    let resumed_data_header =
        encode_bin32_header_with_escape(ZFrameType::ZData, position_header(3), true);
    assert!(output
        .windows(resumed_data_header.len())
        .any(|window| window == resumed_data_header.as_slice()));
    assert!(output.ends_with(b"OO"));
}

#[test]
fn zmodem_receive_requests_resume_after_mismatched_eof() {
    let mut data_io = MemoryModemIo::default();
    write_zdata(
        &mut data_io,
        &build_zfile_header("hello.bin", 5),
        ZDataEnd::EndWithAck,
        false,
        false,
    )
    .expect("file header data");
    let zfile_data = data_io.take_output();

    let mut payload_io = MemoryModemIo::default();
    write_zdata(&mut payload_io, b"hello", ZDataEnd::End, false, false).expect("payload data");
    let payload_data = payload_io.take_output();

    let mut input = encode_hex_header(ZFrameType::ZFile, position_header(0), true);
    input.extend(zfile_data);
    input.extend(encode_hex_header(ZFrameType::ZData, position_header(0), true));
    input.extend(payload_data);
    input.extend(encode_hex_header(ZFrameType::ZEof, position_header(9), true));
    input.extend(encode_hex_header(ZFrameType::ZEof, position_header(5), true));
    input.extend(encode_hex_header(ZFrameType::ZFin, position_header(0), false));
    input.extend_from_slice(b"OO");

    let mut probe = MemoryModemIo::with_input(input.clone());
    let zfile_header = read_zmodem_header(&mut probe).expect("probe zfile header");
    assert_eq!(zfile_header.frame_type, ZFrameType::ZFile);
    let zfile_frame =
        read_zmodem_data(&mut probe, false, ZMODEM_MAX_CHUNK).expect("probe zfile data");
    assert!(parse_zfile_header(&zfile_frame.payload)
        .expect("probe zfile parse")
        .is_some());
    let data_header = read_zmodem_header(&mut probe).expect("probe data header");
    assert_eq!(data_header.frame_type, ZFrameType::ZData);
    let data_frame =
        read_zmodem_data(&mut probe, false, ZMODEM_MAX_CHUNK).expect("probe payload data");
    assert_eq!(data_frame.payload, b"hello");

    let mut io = MemoryModemIo::with_input(input);
    let mut sink = ByteWriter::new();
    let received = receive_zmodem(&mut io, &mut sink).expect("zmodem receive");
    let replies = io.take_output();

    assert_eq!(received.len(), 1);
    assert_eq!(sink.file_bytes(0).unwrap(), b"hello");
    let resume_reply = encode_hex_header(ZFrameType::ZRpos, position_header(5), true);
    assert!(replies
        .windows(resume_reply.len())
        .any(|window| window == resume_reply.as_slice()));
}

#[test]
fn zmodem_receive_acknowledges_crcq_at_the_committed_offset() {
    let mut header_io = MemoryModemIo::default();
    write_zdata(
        &mut header_io,
        &build_zfile_header("hello.bin", 5),
        ZDataEnd::EndWithAck,
        false,
        false,
    )
    .unwrap();
    let mut first_data_io = MemoryModemIo::default();
    write_zdata(&mut first_data_io, b"hel", ZDataEnd::ContinueWithAck, false, false).unwrap();
    let mut final_data_io = MemoryModemIo::default();
    write_zdata(&mut final_data_io, b"lo", ZDataEnd::End, false, false).unwrap();

    let mut input = encode_hex_header(ZFrameType::ZFile, position_header(0), true);
    input.extend(header_io.take_output());
    input.extend(encode_hex_header(ZFrameType::ZData, position_header(0), true));
    input.extend(first_data_io.take_output());
    input.extend(final_data_io.take_output());
    input.extend(encode_hex_header(ZFrameType::ZEof, position_header(5), true));
    input.extend(encode_hex_header(ZFrameType::ZFin, position_header(0), false));
    input.extend_from_slice(b"OO");

    let mut io = MemoryModemIo::with_input(input);
    let mut sink = ByteWriter::new();
    let received = receive_zmodem(&mut io, &mut sink).unwrap();
    let replies = io.take_output();
    let expected_ack = encode_hex_header(ZFrameType::ZAck, position_header(3), false);

    assert_eq!(received.len(), 1);
    assert!(replies
        .windows(expected_ack.len())
        .any(|window| window == expected_ack.as_slice()));
}

#[test]
fn zmodem_receive_rejects_zfin_before_verified_eof() {
    let mut header_io = MemoryModemIo::default();
    write_zdata(
        &mut header_io,
        &build_zfile_header("partial.bin", 5),
        ZDataEnd::EndWithAck,
        false,
        false,
    )
    .unwrap();
    let mut input = encode_hex_header(ZFrameType::ZFile, position_header(0), true);
    input.extend(header_io.take_output());
    input.extend(encode_hex_header(ZFrameType::ZFin, position_header(0), false));
    let mut io = MemoryModemIo::with_input(input);
    let mut sink = ByteWriter::new();

    let result = receive_zmodem(&mut io, &mut sink);

    assert!(matches!(result, Err(ModemTransferError::UnexpectedFrame)));
}

#[test]
fn zmodem_data_rejects_payloads_beyond_the_negotiated_limit() {
    let mut io = MemoryModemIo::with_input(vec![b'x'; ZMODEM_MAX_CHUNK + 1]);

    let result = read_zmodem_data(&mut io, false, ZMODEM_MAX_CHUNK);

    assert!(matches!(
        result,
        Err(ModemTransferError::Protocol(ModemError::InvalidLength))
    ));
}

#[test]
fn zmodem_send_rejects_files_beyond_32_bit_positions() {
    let file_size = u32::MAX as u64 + 1;
    let mut entries = vec![ZmodemSendStreamEntry {
        file_name: "huge.bin".to_string(),
        file_size,
        reader: ByteReader::new(Vec::new()),
    }];
    let mut io = MemoryModemIo::default();

    let result = send_zmodem_stream(&mut io, &mut entries);

    assert!(matches!(
        result,
        Err(ModemTransferError::UnsupportedFileSize(size)) if size == file_size
    ));
    assert!(io.take_output().is_empty());
}

#[test]
fn zmodem_receive_finish_ignores_a_retried_zfin_header() {
    let mut input = encode_hex_header(ZFrameType::ZFin, position_header(0), false);
    input.extend_from_slice(b"OO");
    let mut io = MemoryModemIo::with_input(input);

    finish_zmodem_receive(&mut io).unwrap();

    assert_eq!(
        io.take_output(),
        encode_hex_header(ZFrameType::ZFin, position_header(0), false)
    );
}

#[test]
fn zmodem_send_rejects_resume_positions_past_end_of_file() {
    let mut input = encode_hex_header(ZFrameType::ZrInit, zrinit_flags(), true);
    input.extend(encode_hex_header(ZFrameType::ZRpos, position_header(7), true));
    let mut io = MemoryModemIo::with_input(input);
    let mut entries = vec![ZmodemSendStreamEntry {
        file_name: "short.bin".to_string(),
        file_size: 5,
        reader: ByteReader::new(b"short".to_vec()),
    }];

    let result = send_zmodem_stream(&mut io, &mut entries);

    assert!(matches!(result, Err(ModemTransferError::UnexpectedFrame)));
}

#[test]
fn received_files_are_announced_to_the_sink_with_their_sizes() {
    let mut header_io = MemoryModemIo::default();
    write_zdata(
        &mut header_io,
        &build_zfile_header("a.txt", 2),
        ZDataEnd::EndWithAck,
        false,
        false,
    )
    .unwrap();
    let mut data_io = MemoryModemIo::default();
    write_zdata(&mut data_io, b"ok", ZDataEnd::End, false, false).unwrap();
    let mut input = encode_hex_header(ZFrameType::ZFile, position_header(0), true);
    input.extend(header_io.take_output());
    input.extend(encode_hex_header(ZFrameType::ZData, position_header(0), true));
    input.extend(data_io.take_output());
    input.extend(encode_hex_header(ZFrameType::ZEof, position_header(2), true));
    input.extend(encode_hex_header(ZFrameType::ZFin, position_header(0), false));
    input.extend_from_slice(b"OO");
    let mut io = MemoryModemIo::with_input(input);
    let mut sink = ByteWriter::new();
    let received = receive_zmodem(&mut io, &mut sink).unwrap();
    assert_eq!(received.len(), 1);
    assert_eq!(received[0].file_name, "a.txt");
    assert_eq!(received[0].file_size, Some(2));
    assert_eq!(sink.file_count(), 1);
    assert_eq!(sink.file_announcement(0), Some(("a.txt".to_string(), Some(2))));
    assert_eq!(sink.file_bytes(0).unwrap(), b"ok");
}

#[test]
fn header_prefix_is_found_after_line_noise() {
    let mut bytes = b"noise".to_vec();
    bytes.extend(encode_hex_header(ZFrameType::ZrqInit, position_header(0), true));
    let header = parse_zmodem_header_prefix(&bytes).unwrap().expect("header");
    assert_eq!(header.frame_type, ZFrameType::ZrqInit);
    assert_eq!(parse_zmodem_header_prefix(b"no header here"), Ok(None));
    let full = encode_hex_header(ZFrameType::ZrqInit, position_header(0), true);
    assert_eq!(parse_zmodem_header_prefix(&full[..6]), Ok(None));
}

#[test]
fn corrupted_data_subpacket_is_reported_as_a_crc_error() {
    let mut data_io = MemoryModemIo::default();
    write_zdata(&mut data_io, b"hello", ZDataEnd::End, false, false).unwrap();
    let mut bytes = data_io.take_output();
    bytes[0] ^= 0x01;
    let mut io = MemoryModemIo::with_input(bytes);
    let result = read_zmodem_data(&mut io, false, ZMODEM_MAX_CHUNK);
    assert!(matches!(
        result,
        Err(ModemTransferError::Protocol(ModemError::InvalidCrc))
    ));
}

#[test]
fn data_subpackets_read_back_with_every_end_crc_and_escaping() {
    let payload: Vec<u8> = vec![0x00, 0x10, 0x11, 0x13, 0x18, 0x7f, 0x90, 0x91, 0x93, 0xff, b'h', b'k'];
    let ends = [
        ZDataEnd::End,
        ZDataEnd::Continue,
        ZDataEnd::ContinueWithAck,
        ZDataEnd::EndWithAck,
    ];
    for end in ends {
        for use_crc32 in [false, true] {
            for escape_control in [false, true] {
                let mut out = MemoryModemIo::default();
                write_zdata(&mut out, &payload, end, use_crc32, escape_control).unwrap();
                let mut io = MemoryModemIo::with_input(out.take_output());
                let frame = read_zmodem_data(&mut io, use_crc32, payload.len()).expect("subpacket");
                assert_eq!(frame.payload, payload);
                assert_eq!(frame.end, end);
            }
        }
    }
}

#[test]
fn header_prefix_reports_a_corrupted_hex_header() {
    let mut bytes = encode_hex_header(ZFrameType::ZrqInit, position_header(0), true);
    bytes[8] = if bytes[8] == b'1' { b'2' } else { b'1' };
    assert!(matches!(
        parse_zmodem_header_prefix(&bytes),
        Err(ModemError::InvalidCrc)
    ));
}

#[test]
fn crc16_binary_header_with_a_zero_crc_is_read_back() {
    let bytes = encode_bin16_header(ZFrameType::ZrqInit, position_header(0));
    let mut io = MemoryModemIo::with_input(bytes);
    let header = read_zmodem_header(&mut io).expect("header");
    assert_eq!(header.frame_type, ZFrameType::ZrqInit);
    assert_eq!(header.position, [0, 0, 0, 0]);
}

#[test]
fn data_phase_as_sent_is_kept_by_the_file_data_receiver() {
    let mut input = encode_bin32_header_with_escape(ZFrameType::ZData, position_header(0), false);
    let mut data = MemoryModemIo::default();
    write_zdata(&mut data, b"hello ", ZDataEnd::ContinueWithAck, true, false).unwrap();
    write_zdata(&mut data, b"world", ZDataEnd::End, true, false).unwrap();
    input.extend(data.take_output());
    input.extend(encode_hex_header(ZFrameType::ZEof, position_header(11), true));
    let mut io = MemoryModemIo::with_input(input);
    let mut sink = ByteWriter::new();
    let kept = receive_zmodem_file_data(&mut io, &mut sink, Some(11)).expect("data phase");
    assert_eq!(kept, 11);
    assert_eq!(sink.into_bytes(), b"hello world".to_vec());
}

#[test]
fn sender_reply_decisions_follow_the_receiver() {
    assert_eq!(zmodem_ack_reply(ZFrameType::ZAck, 7, 7), ZAckReply::Continue);
    assert_eq!(zmodem_ack_reply(ZFrameType::ZAck, 6, 7), ZAckReply::Unexpected);
    assert_eq!(zmodem_ack_reply(ZFrameType::ZRpos, 3, 7), ZAckReply::ResumeAt(3));
    assert_eq!(zmodem_ack_reply(ZFrameType::ZSkip, 0, 7), ZAckReply::Skip);
    assert_eq!(zmodem_ack_reply(ZFrameType::ZCan, 0, 7), ZAckReply::Cancelled);
    assert_eq!(zmodem_offer_reply(ZFrameType::ZRpos, 3, 6), ZFileReply::SendFrom(3));
    assert_eq!(zmodem_offer_reply(ZFrameType::ZRpos, 7, 5), ZFileReply::Unexpected);
    assert_eq!(zmodem_offer_reply(ZFrameType::ZrInit, 0, 5), ZFileReply::Ignore);
    assert_eq!(zmodem_end_reply(ZFrameType::ZrInit, 0, 5), ZFileReply::Taken);
    assert_eq!(zmodem_end_reply(ZFrameType::ZRpos, 6, 5), ZFileReply::Unexpected);
    assert_eq!(zmodem_end_reply(ZFrameType::ZData, 0, 5), ZFileReply::Unexpected);
}
