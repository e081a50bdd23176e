use oxideterm::error::ModemTransferError;
use oxideterm::io::{ByteReader, ByteWriter, MemoryModemIo};
use oxideterm::xymodem::{XyBlock, XyBlockSize, YmodemFileHeader, ACK, CAN, EOT, NAK, SOH, WANT_CRC};
use oxideterm::xymodem_transfer::{
    read_xymodem_block, read_xymodem_packet, receive_xmodem, receive_ymodem, send_xmodem,
    send_ymodem, send_ymodem_stream, XmodemBlockMode, XymodemPacket, YmodemSendEntry,
    YmodemSendStreamEntry,
};

#[test]
fn xmodem_send_emits_crc_blocks_and_eot() {
    let mut input = Vec::new();
    input.push(WANT_CRC);
    input.extend([ACK, ACK]);
    let mut io = MemoryModemIo::with_input(input);
    let mut reader = ByteReader::new(b"hello".to_vec());
    let sent = send_xmodem(&mut io, &mut reader, XmodemBlockMode::Bytes128).expect("xmodem send");
    let output = io.take_output();
    assert_eq!(sent, 5);
    assert_eq!(output[0], SOH);
    assert_eq!(output[1], 1);
    assert_eq!(*output.last().unwrap(), EOT);
}

#[test]
fn xmodem_send_supports_checksum_negotiation() {
    let mut input = Vec::new();
    input.push(NAK);
    input.extend([ACK, ACK]);
    let mut io = MemoryModemIo::with_input(input);
    let mut reader = ByteReader::new(b"hello".to_vec());
    let sent = send_xmodem(&mut io, &mut reader, XmodemBlockMode::Bytes128).expect("xmodem send");
    let output = io.take_output();
    let block_len = 3 + XyBlockSize::Bytes128.len() + 1;
    let block = XyBlock::parse_checksum(&output[..block_len]).expect("checksum block");
    assert_eq!(sent, 5);
    assert_eq!(block.number, 1);
    assert_eq!(&block.payload[..5], b"hello");
    assert_eq!(output[block_len], EOT);
}

#[test]
fn ymodem_receive_truncates_cpm_padding_to_file_size() {
    let header = YmodemFileHeader::new("hello.txt", Some(5)).unwrap();
    let mut input = XyBlock::new(
        0,
        XyBlockSize::Bytes128,
        &header.encode_block0_payload().unwrap(),
    )
    .unwrap()
    .encode_crc();
    input.extend(
        XyBlock::new(1, XyBlockSize::Bytes128, b"hello")
            .unwrap()
            .encode_crc(),
    );
    input.extend([EOT, EOT]);
    input.extend(
        XyBlock::new(0, XyBlockSize::Bytes128, &[0u8; 128])
            .unwrap()
            .encode_crc(),
    );

    let mut io = MemoryModemIo::with_input(input);
    let mut sink = ByteWriter::new();
    let received = receive_ymodem(&mut io, &mut sink).expect("ymodem receive");

    assert_eq!(received.len(), 1);
    assert_eq!(sink.file_bytes(0).unwrap(), b"hello");
    assert_eq!(sink.into_bytes(), b"hello");
    assert!(io.take_output().windows(2).any(|bytes| bytes == [NAK, ACK]));
}

#[test]
fn ymodem_send_starts_with_block_zero() {
    let mut input = Vec::new();
    input.extend([WANT_CRC, ACK, WANT_CRC, ACK, NAK, ACK, WANT_CRC, ACK]);
    let mut io = MemoryModemIo::with_input(input);
    let entry = YmodemSendEntry {
        file_name: "hello.txt".to_string(),
        file_size: 5,
        bytes: b"hello".to_vec(),
    };
    let sent = send_ymodem(&mut io, &[entry]).expect("ymodem send");
    let output = io.take_output();
    assert_eq!(sent, 5);
    assert_eq!(output[0], SOH);
    assert_eq!(output[1], 0);
    assert!(output.windows("hello.txt".len()).any(|w| w == b"hello.txt"));
    assert!(output.windows(2).any(|bytes| bytes == [EOT, EOT]));
}

#[test]
fn ymodem_send_rejects_a_reader_shorter_than_its_declared_size() {
    let mut input = Vec::new();
    input.extend([WANT_CRC, ACK, WANT_CRC, ACK]);
    let mut io = MemoryModemIo::with_input(input);
    let mut entries = vec![YmodemSendStreamEntry {
        file_name: "short.bin".to_string(),
        file_size: 6,
        reader: ByteReader::new(b"short".to_vec()),
    }];

    let result = send_ymodem_stream(&mut io, &mut entries);

    assert!(matches!(result, Err(ModemTransferError::UnexpectedFrame)));
}

#[test]
fn xmodem_receive_writes_the_payload_and_acknowledges() {
    let mut input = XyBlock::new(1, XyBlockSize::Bytes128, b"data").unwrap().encode_crc();
    input.push(EOT);
    let mut io = MemoryModemIo::with_input(input);
    let mut sink = ByteWriter::new();
    let received = receive_xmodem(&mut io, &mut sink, true).expect("xmodem receive");
    assert_eq!(received, 128);
    let bytes = sink.into_bytes();
    assert_eq!(&bytes[..4], b"data");
    assert_eq!(bytes.len(), 128);
    let output = io.take_output();
    assert_eq!(output[0], WANT_CRC);
    assert_eq!(output[1], ACK);
    assert_eq!(*output.last().unwrap(), ACK);
}

#[test]
fn xmodem_send_is_cancelled_by_the_peer() {
    let mut io = MemoryModemIo::with_input(vec![CAN, CAN]);
    let mut reader = ByteReader::new(b"hello".to_vec());
    let result = send_xmodem(&mut io, &mut reader, XmodemBlockMode::Bytes128);
    assert!(matches!(result, Err(ModemTransferError::Cancelled)));
}

#[test]
fn xmodem_send_times_out_without_a_receiver() {
    let mut io = MemoryModemIo::with_input(Vec::new());
    let mut reader = ByteReader::new(b"hello".to_vec());
    let result = send_xmodem(&mut io, &mut reader, XmodemBlockMode::Bytes1024);
    assert!(matches!(result, Err(ModemTransferError::Timeout)));
}

#[test]
fn blocks_read_back_through_the_channel_with_either_trailer() {
    for size in [XyBlockSize::Bytes128, XyBlockSize::Bytes1024] {
        for use_crc in [false, true] {
            let block = XyBlock::new(7, size, b"abc").expect("block");
            let mut bytes = if use_crc {
                block.encode_crc()
            } else {
                block.encode_checksum()
            };
            bytes.push(EOT);
            let mut io = MemoryModemIo::with_input(bytes);
            let read = read_xymodem_block(&mut io, use_crc).expect("block");
            assert_eq!(read.number, 7);
            assert_eq!(read.size, size);
            assert_eq!(&read.payload[..3], b"abc");
            assert!(read.payload[3..].iter().all(|b| *b == 0x1a));
            assert!(matches!(
                read_xymodem_packet(&mut io, use_crc),
                Ok(XymodemPacket::EndOfTransmission)
            ));
        }
    }
}

#[test]
fn packet_reader_reports_a_cancel_and_a_stray_byte() {
    let mut io = MemoryModemIo::with_input(vec![CAN, CAN]);
    assert!(matches!(
        read_xymodem_packet(&mut io, true),
        Err(ModemTransferError::Cancelled)
    ));
    let mut io = MemoryModemIo::with_input(vec![CAN, b'x']);
    assert!(matches!(
        read_xymodem_packet(&mut io, true),
        Err(ModemTransferError::UnexpectedByte(CAN))
    ));
    let mut io = MemoryModemIo::with_input(vec![b'x']);
    assert!(matches!(
        read_xymodem_block(&mut io, true),
        Err(ModemTransferError::UnexpectedByte(b'x'))
    ));
    let mut io = MemoryModemIo::with_input(vec![SOH, 1, 0xfe]);
    assert!(matches!(
        read_xymodem_block(&mut io, true),
        Err(ModemTransferError::Timeout)
    ));
}

#[test]
fn xmodem_receive_keeps_each_block_once_in_order() {
    let first = XyBlock::new(1, XyBlockSize::Bytes128, &[b'a'; 128]).expect("block");
    let second = XyBlock::new(2, XyBlockSize::Bytes128, b"tail").expect("block");
    let mut input = first.encode_crc();
    // A retransmission of the first block is acknowledged and not kept twice.
    input.extend(first.encode_crc());
    input.extend(second.encode_crc());
    input.push(EOT);
    let mut io = MemoryModemIo::with_input(input);
    let mut writer = ByteWriter::new();
    let total = receive_xmodem(&mut io, &mut writer, true).expect("receive");
    assert_eq!(total, 256);
    let written = writer.into_bytes();
    assert_eq!(&written[..128], &[b'a'; 128][..]);
    assert_eq!(&written[128..132], b"tail");
    assert!(written[132..].iter().all(|b| *b == 0x1a));
}
