use oxideterm::error::ModemTransferError;
use oxideterm::io::ModemIo;
use oxideterm::stream::{ModemTransfer, MODEM_REMOTE_OUTPUT_BUFFER_BYTES, MODEM_SERVER_WRITE_BUFFER_BYTES};

#[test]
fn transfer_reads_initial_bytes_and_records_writes() {
    let mut transfer = ModemTransfer::new(b"abc");
    assert_eq!(transfer.read_byte(1).unwrap(), b'a');
    transfer.write_all(b"reply").unwrap();
    let reply = transfer.take_server_write().expect("queued reply");
    assert_eq!(reply, b"reply");
    assert!(!transfer.server_writes_drained());
    transfer.complete_server_write(reply.len());
    assert!(transfer.server_writes_drained());
}

#[test]
fn stop_replaces_unsent_payload_with_protocol_cancellation() {
    let mut transfer = ModemTransfer::new_with_cancellation(b"", b"cancel");
    transfer.write_all(b"payload").unwrap();

    transfer.stop();

    let cancellation = transfer.take_server_write().expect("cancellation bytes");
    assert_eq!(cancellation, b"cancel");
    assert!(matches!(
        transfer.read_byte(1),
        Err(ModemTransferError::Cancelled)
    ));
}

#[test]
fn restored_server_writes_keep_fifo_order() {
    let mut transfer = ModemTransfer::new(b"");
    transfer.write_all(b"first").unwrap();
    transfer.write_all(b"second").unwrap();

    let first = transfer.take_server_write().expect("first write");
    transfer.restore_server_write(first);

    let first = transfer.take_server_write().expect("restored write");
    assert_eq!(first, b"first");
    transfer.complete_server_write(first.len());
    let second = transfer.take_server_write().expect("second write");
    assert_eq!(second, b"second");
    transfer.complete_server_write(second.len());
    assert!(transfer.server_writes_drained());
}

#[test]
fn remote_input_overflow_cancels_with_a_specific_error() {
    let mut transfer = ModemTransfer::new_with_cancellation(b"", b"protocol-cancel");
    transfer.push_remote_output(&vec![0; MODEM_REMOTE_OUTPUT_BUFFER_BYTES + 1]);

    assert!(matches!(
        transfer.read_byte(1),
        Err(ModemTransferError::InputBufferOverflow(
            MODEM_REMOTE_OUTPUT_BUFFER_BYTES
        ))
    ));
    assert_eq!(
        transfer.take_server_write().as_deref(),
        Some(b"protocol-cancel".as_slice())
    );
}

#[test]
fn full_outbound_queue_refuses_a_write_until_one_completes() {
    let mut transfer = ModemTransfer::new(b"");
    transfer
        .write_all(&vec![0; MODEM_SERVER_WRITE_BUFFER_BYTES])
        .unwrap();
    assert!(!transfer.accepts_write(4));
    assert!(matches!(
        transfer.write_all(b"next"),
        Err(ModemTransferError::Timeout)
    ));

    let first = transfer.take_server_write().expect("buffer-sized write");
    transfer.complete_server_write(first.len());
    assert!(transfer.accepts_write(4));
    transfer.write_all(b"next").unwrap();
    assert_eq!(transfer.take_server_write().unwrap(), b"next");
}

#[test]
fn cancelling_twice_sends_the_cancellation_once() {
    let mut transfer = ModemTransfer::new_with_cancellation(b"abc", b"xx");
    transfer.stop();
    transfer.stop();
    assert_eq!(transfer.take_server_write().unwrap(), b"xx");
    assert!(transfer.take_server_write().is_none());
}

#[test]
fn drained_remote_output_is_what_was_not_read() {
    let mut transfer = ModemTransfer::new(b"abc");
    transfer.push_remote_output(b"de");
    assert_eq!(transfer.read_byte(1).unwrap(), b'a');
    assert_eq!(transfer.drain_remote_output(), b"bcde");
    assert!(matches!(transfer.read_byte(1), Err(ModemTransferError::Timeout)));
}
