//! ZMODEM transfers over a `ModemIo` channel.
use vstd::prelude::*;

use crate::crc::{crc16_fold, crc16_xmodem_update, crc32_fold, crc32_ieee_update};
use crate::error::{ModemError, ModemTransferError};
use crate::io::{
    bytes_read, channel_error, consumed_in_order, file_content, lemma_channel_error_earlier,
    lemma_memory_io_exhausted, lemma_prefix_of_append, write_outcome,
    lemma_prefix_trans, ByteReader, MemoryModemIo, ModemIo, ModemRead,
    ModemWrite,
};
use crate::xymodem_transfer::{concat_units, files_match_sizes, read_padded, repeat_seq};
use crate::zscan::{
    lemma_bin32_header_read_back, lemma_hex_header_read_back,
    data_is_terminal, data_scan, data_scan_wf, data_start, data_step, data_take, header_scan,
    header_scan_wf, header_step, header_take,
    is_terminal, lemma_data_scan_push, lemma_data_scan_subpacket, lemma_data_scan_terminal,
    lemma_data_trailer_accepted, lemma_header_scan_no_timeout, lemma_header_scan_push,
    lemma_header_scan_terminal, lemma_hex_header_no_early_stop, spec_header_prefix, DataScan, DataScanner, EscapeScanner,
    HeaderScan, HeaderScanner,
};
use crate::bytes::{find_first, is_first, lemma_find_first, lemma_find_first_is_first};
use crate::zfile::{build_zfile_header, parse_zfile_header, spec_build_zfile_header, spec_parse_zfile_header};
use crate::zmodem::{
    be16_bytes, encode_bin16_header_with_escape, encode_bin32_header_with_escape,
    encode_hex_header, le32_bytes, le32_value, lemma_le32_round_trip, position_header,
    push_zdle_escaped_with_control,
    spec_data_end_marker, spec_encode_bin16_header, spec_encode_bin32_header,
    spec_encode_hex_header, u32_le_bytes, zdle_escape_all, ZDataEnd, ZFrameType, ZHeader,
    ZHeaderEncoding, XON, ZDLE, ZPAD,
};

verus! {

pub const ZMODEM_TIMEOUT_MS: u64 = 10000;

pub const ZMODEM_MAX_CHUNK: usize = 8192;

pub const ZMODEM_MAX_POSITION: u64 = 4294967295;

pub const ZMODEM_CAN_FULL_DUPLEX: u8 = 0x01;

pub const ZMODEM_CAN_OVERLAPPED_IO: u8 = 0x02;

pub const ZMODEM_CAN_CRC32: u8 = 0x20;

pub const ZMODEM_ESCAPE_CONTROL: u8 = 0x40;

pub const ZMODEM_BINARY_FILE_CONVERSION: u8 = 0x01;

pub const ZMODEM_ATTENTION_MAX_BYTES: usize = 32;

/// The ZFILE header flags: binary transfer.
pub fn zfile_binary_flags() -> (r: [u8; 4])
    ensures
        r@ == seq![0u8, 0u8, 0u8, ZMODEM_BINARY_FILE_CONVERSION],
{
    let r = [0u8, 0u8, 0u8, ZMODEM_BINARY_FILE_CONVERSION];
    assert(r@ =~= seq![0u8, 0u8, 0u8, ZMODEM_BINARY_FILE_CONVERSION]);
    r
}

/// The receiver's ZRINIT flags: 8 KiB buffer, full duplex, overlapped I/O,
/// CRC-32 and escaped control bytes.
pub fn zrinit_flags() -> (r: [u8; 4])
    ensures
        r@ == seq![0u8, 32u8, 0u8, 0x63u8],
{
    let r = [
        0u8,
        32u8,
        0u8,
        ZMODEM_CAN_FULL_DUPLEX | ZMODEM_CAN_OVERLAPPED_IO | ZMODEM_CAN_CRC32
            | ZMODEM_ESCAPE_CONTROL,
    ];
    assert(ZMODEM_CAN_FULL_DUPLEX | ZMODEM_CAN_OVERLAPPED_IO | ZMODEM_CAN_CRC32
        | ZMODEM_ESCAPE_CONTROL == 0x63u8) by (bit_vector);
    assert(r@ =~= seq![0u8, 32u8, 0u8, 0x63u8]);
    r
}

/// What the receiver's ZRINIT announced.
#[derive(Clone, Copy, Debug)]
pub struct ZmodemPeerCapabilities {
    pub chunk_size: usize,
    pub use_crc32: bool,
    pub escape_control: bool,
}

/// A file announced by a ZFILE frame.
#[derive(Clone, Debug, Eq, PartialEq)]
pub struct ZmodemFileHeader {
    pub file_name: String,
    pub file_size: Option<u64>,
}

/// A file to upload with ZMODEM, held in memory.
#[derive(Clone, Debug, Eq, PartialEq)]
pub struct ZmodemSendEntry {
    pub file_name: String,
    pub bytes: Vec<u8>,
}

/// A file to upload with ZMODEM, read (with seeking) from `reader`.
#[derive(Debug)]
pub struct ZmodemSendStreamEntry<R> {
    pub file_name: String,
    pub file_size: u64,
    pub reader: R,
}

/// A received data subpacket.
#[derive(Debug)]
pub struct ZDataFrame {
    pub payload: Vec<u8>,
    pub end: ZDataEnd,
}

/// Whether a hex header carries a trailing XON.
pub open spec fn header_has_xon(t: ZFrameType) -> bool {
    !(t == ZFrameType::ZFin || t == ZFrameType::ZAck)
}

/// A data subpacket as sent: escaped payload, end marker and escaped CRC.
pub open spec fn spec_encode_zdata(
    payload: Seq<u8>,
    end: ZDataEnd,
    use_crc32: bool,
    escape_control: bool,
) -> Seq<u8> {
    let covered = payload.push(spec_data_end_marker(end));
    let trailer = if use_crc32 {
        le32_bytes(!crc32_fold(0xffff_ffffu32, covered))
    } else {
        be16_bytes(crc16_fold(0, covered))
    };
    zdle_escape_all(payload, escape_control) + seq![ZDLE, spec_data_end_marker(end)]
        + zdle_escape_all(trailer, escape_control) + if end == ZDataEnd::EndWithAck {
        seq![XON]
    } else {
        Seq::empty()
    }
}

/// Sends a hex header; all but ZFIN and ZACK end with XON.
pub fn write_zheader<I: ModemIo>(io: &mut I, frame_type: ZFrameType, position: [u8; 4]) -> (r:
    Result<(), ModemTransferError>)
    ensures
        final(io).incoming() == old(io).incoming(),
        old(io).reliable() ==> r is Ok && final(io).reliable(),
        r is Err ==> final(io).sent() == old(io).sent(),
        final(io).received() == old(io).received(),
        final(io).pending() <= old(io).pending(),
        r is Ok ==> final(io).sent() == old(io).sent() + spec_encode_hex_header(
            frame_type,
            position@,
            header_has_xon(frame_type),
        ),
        write_outcome(
            *old(io),
            *final(io),
            spec_encode_hex_header(frame_type, position@, header_has_xon(frame_type)).len(),
            r,
        ),
        final(io).can_read() == old(io).can_read(),
        final(io).read_failure() == old(io).read_failure(),
{
    let include_xon = !(frame_type == ZFrameType::ZFin || frame_type == ZFrameType::ZAck);
    let header = encode_hex_header(frame_type, position, include_xon);
    io.write_all(header.as_slice())
}

/// Sends a binary header with the peer's CRC width and escaping.
pub fn write_zbinary_header<I: ModemIo>(
    io: &mut I,
    frame_type: ZFrameType,
    position: [u8; 4],
    use_crc32: bool,
    escape_control: bool,
) -> (r: Result<(), ModemTransferError>)
    ensures
        final(io).incoming() == old(io).incoming(),
        old(io).reliable() ==> r is Ok && final(io).reliable(),
        r is Err ==> final(io).sent() == old(io).sent(),
        final(io).received() == old(io).received(),
        final(io).pending() <= old(io).pending(),
        r is Ok ==> final(io).sent() == old(io).sent() + if use_crc32 {
            spec_encode_bin32_header(frame_type, position@, escape_control)
        } else {
            spec_encode_bin16_header(frame_type, position@, escape_control)
        },
        write_outcome(
            *old(io),
            *final(io),
            zbinary_header(frame_type, position@, use_crc32, escape_control).len(),
            r,
        ),
        final(io).can_read() == old(io).can_read(),
        final(io).read_failure() == old(io).read_failure(),
{
    let header = if use_crc32 {
        encode_bin32_header_with_escape(frame_type, position, escape_control)
    } else {
        encode_bin16_header_with_escape(frame_type, position, escape_control)
    };
    io.write_all(header.as_slice())
}

/// Sends a data subpacket.
pub fn write_zdata<I: ModemIo>(
    io: &mut I,
    payload: &[u8],
    end: ZDataEnd,
    use_crc32: bool,
    escape_control: bool,
) -> (r: Result<(), ModemTransferError>)
    ensures
        final(io).incoming() == old(io).incoming(),
        old(io).reliable() ==> r is Ok && final(io).reliable(),
        r is Err ==> final(io).sent() == old(io).sent(),
        final(io).received() == old(io).received(),
        final(io).pending() <= old(io).pending(),
        r is Ok ==> final(io).sent() == old(io).sent() + spec_encode_zdata(
            payload@,
            end,
            use_crc32,
            escape_control,
        ),
        write_outcome(
            *old(io),
            *final(io),
            spec_encode_zdata(payload@, end, use_crc32, escape_control).len(),
            r,
        ),
        final(io).can_read() == old(io).can_read(),
        final(io).read_failure() == old(io).read_failure(),
{
    let marker = end.marker();
    let mut out: Vec<u8> = Vec::new();
    let mut crc16: u16 = 0;
    let mut crc32: u32 = 0xffff_ffff;
    let mut i: usize = 0;
    while i < payload.len()
        invariant
            i <= payload@.len(),
            out@ == zdle_escape_all(payload@.subrange(0, i as int), escape_control),
            crc16 == crc16_fold(0, payload@.subrange(0, i as int)),
            crc32 == crc32_fold(0xffff_ffffu32, payload@.subrange(0, i as int)),
        decreases payload.len() - i,
    {
        assert(payload@.subrange(0, i + 1).drop_last() =~= payload@.subrange(0, i as int));
        push_zdle_escaped_with_control(&mut out, payload[i], escape_control);
        crc16 = crc16_xmodem_update(crc16, payload[i]);
        crc32 = crc32_ieee_update(crc32, payload[i]);
        i = i + 1;
    }
    assert(payload@.subrange(0, payload@.len() as int) =~= payload@);
    let ghost covered = payload@.push(marker);
    assert(covered.drop_last() =~= payload@);
    out.push(ZDLE);
    out.push(marker);
    let trailer: Vec<u8> = if use_crc32 {
        let c = !crc32_ieee_update(crc32, marker);
        u32_le_bytes(c)
    } else {
        let c = crc16_xmodem_update(crc16, marker);
        let mut t: Vec<u8> = Vec::new();
        t.push((c / 256) as u8);
        t.push((c % 256) as u8);
        assert(t@ =~= be16_bytes(c));
        t
    };
    let mut j: usize = 0;
    let ghost mid = out@;
    while j < trailer.len()
        invariant
            j <= trailer@.len(),
            out@ == mid + zdle_escape_all(trailer@.subrange(0, j as int), escape_control),
        decreases trailer.len() - j,
    {
        assert(trailer@.subrange(0, j + 1).drop_last() =~= trailer@.subrange(0, j as int));
        push_zdle_escaped_with_control(&mut out, trailer[j], escape_control);
        j = j + 1;
        assert(out@ =~= mid + zdle_escape_all(trailer@.subrange(0, j as int), escape_control));
    }
    assert(trailer@.subrange(0, trailer@.len() as int) =~= trailer@);
    if end == ZDataEnd::EndWithAck {
        // lrzsz emits XON after ZCRCW to release software flow control
        // before it waits for the peer's acknowledgment.
        out.push(XON);
    }
    assert(out@ =~= spec_encode_zdata(payload@, end, use_crc32, escape_control));
    io.write_all(out.as_slice())
}

/// A data subpacket as `write_zdata` sends it is read back by the data reader
/// of `read_zmodem_data` with the same CRC width as the payload and end it
/// was built from, whatever the escaping, when the payload fits the reader's
/// limit.
pub proof fn lemma_zdata_read_back(
    payload: Seq<u8>,
    end: ZDataEnd,
    use_crc32: bool,
    escape_control: bool,
    max_payload: nat,
)
    requires
        payload.len() <= max_payload,
    ensures
        data_scan(data_start(), spec_encode_zdata(payload, end, use_crc32, escape_control), use_crc32, max_payload)
            == DataScan::Found(payload, end),
{
    let covered = payload.push(spec_data_end_marker(end));
    let trailer = if use_crc32 {
        le32_bytes(!crc32_fold(0xffff_ffffu32, covered))
    } else {
        be16_bytes(crc16_fold(0, covered))
    };
    let body = zdle_escape_all(payload, escape_control) + seq![ZDLE, spec_data_end_marker(end)]
        + zdle_escape_all(trailer, escape_control);
    let tail = if end == ZDataEnd::EndWithAck {
        seq![XON]
    } else {
        Seq::empty()
    };
    lemma_data_trailer_accepted(payload, end, use_crc32);
    lemma_data_scan_subpacket(payload, end, trailer, escape_control, use_crc32, max_payload);
    assert(spec_encode_zdata(payload, end, use_crc32, escape_control) =~= body + tail);
    lemma_data_scan_terminal(data_start(), body, tail, use_crc32, max_payload);
}

/// Announces this side as a ZMODEM receiver.
pub fn send_zrinit<I: ModemIo>(io: &mut I) -> (r: Result<(), ModemTransferError>)
    ensures
        final(io).incoming() == old(io).incoming(),
        old(io).reliable() ==> r is Ok && final(io).reliable(),
        final(io).received() == old(io).received(),
        final(io).pending() <= old(io).pending(),
        r is Ok ==> final(io).sent() == old(io).sent() + spec_encode_hex_header(
            ZFrameType::ZrInit,
            seq![0u8, 32u8, 0u8, 0x63u8],
            true,
        ),
        write_outcome(*old(io), *final(io), zrinit_answer().len(), r),
        final(io).can_read() == old(io).can_read(),
        final(io).read_failure() == old(io).read_failure(),
{
    // One response per negotiation event: back-to-back duplicates would stay
    // queued as stale replies after the sender has moved on.
    write_zheader(io, ZFrameType::ZrInit, zrinit_flags())
}

/// Checks that a file size fits ZMODEM's 32-bit positions.
pub fn validate_zmodem_file_size(file_size: u64) -> (r: Result<(), ModemTransferError>)
    ensures
        file_size <= ZMODEM_MAX_POSITION ==> r is Ok,
        file_size > ZMODEM_MAX_POSITION ==> (r matches Err(
            ModemTransferError::UnsupportedFileSize(n),
        ) && n == file_size),
{
    if file_size > ZMODEM_MAX_POSITION {
        return Err(ModemTransferError::UnsupportedFileSize(file_size));
    }
    Ok(())
}

/// The position bytes for `position`, which must fit 32 bits.
pub fn position_header_checked(position: u64) -> (r: Result<[u8; 4], ModemTransferError>)
    ensures
        position <= ZMODEM_MAX_POSITION ==> (r matches Ok(p) && le32_value(p@) == position
            && p@ == le32_bytes(position as u32)),
        position > ZMODEM_MAX_POSITION ==> (r matches Err(
            ModemTransferError::UnsupportedFileSize(n),
        ) && n == position),
{
    if position > ZMODEM_MAX_POSITION {
        return Err(ModemTransferError::UnsupportedFileSize(position));
    }
    Ok(position_header(position as u32))
}

/// `n` more than `o`, if there is one.
pub open spec fn opt_add(o: Option<nat>, n: nat) -> Option<nat> {
    match o {
        Some(m) => Some(m + n),
        None => None,
    }
}

/// Skips line noise up to the next header and reads it. The bytes read are
/// exactly those that take the header reader to a header (or to a failure);
/// otherwise a read failed, and then the channel had nothing to read.
pub fn read_zmodem_header<I: ModemIo>(io: &mut I) -> (r: Result<ZHeader, ModemTransferError>)
    ensures
        consumed_in_order(*old(io), *final(io)),
        r is Ok ==> final(io).pending() < old(io).pending(),
        match r {
            Ok(h) => header_scan(HeaderScan::Searching, bytes_read(*old(io), *final(io)))
                == HeaderScan::Found((h.frame_type, h.position@, h.encoding)),
            Err(e) => header_scan(HeaderScan::Searching, bytes_read(*old(io), *final(io)))
                == HeaderScan::Failed(e) || (!is_terminal(
                header_scan(HeaderScan::Searching, bytes_read(*old(io), *final(io))),
            ) && !final(io).can_read() && e == final(io).read_failure()),
        },
        old(io).reliable() ==> final(io).reliable() && final(io).read_failure() == old(io).read_failure()
            && if is_terminal(header_scan(HeaderScan::Searching, bytes_read(*old(io), *final(io)))) {
            header_take(HeaderScan::Searching, old(io).incoming()) == Some(
                bytes_read(*old(io), *final(io)).len(),
            )
        } else {
            header_take(HeaderScan::Searching, old(io).incoming()) is None && r == Err::<
                ZHeader,
                ModemTransferError,
            >(old(io).read_failure())
        },
{
    let mut scanner = HeaderScanner::Searching;
    let ghost start = io.received().len();
    assert(io.received().subrange(0, start as int) =~= io.received());
    loop
        invariant
            start == old(io).received().len(),
            consumed_in_order(*old(io), *io),
            scanner@ == header_scan(HeaderScan::Searching, bytes_read(*old(io), *io)),
            !is_terminal(scanner@),
            header_scan_wf(scanner@),
            bytes_read(*old(io), *io).len() > 0 ==> io.pending() < old(io).pending(),
            old(io).reliable() ==> io.reliable() && io.read_failure() == old(io).read_failure(),
            header_take(HeaderScan::Searching, old(io).incoming()) == opt_add(
                header_take(scanner@, io.incoming()),
                bytes_read(*old(io), *io).len(),
            ),
        decreases io.pending(),
    {
        let ghost before = *io;
        let byte = match io.read_byte(ZMODEM_TIMEOUT_MS) {
            Ok(b) => b,
            Err(e) => {
                assert(bytes_read(*old(io), *io) =~= bytes_read(*old(io), before));
                return Err(e);
            },
        };
        proof {
            let t0 = bytes_read(*old(io), before);
            assert(bytes_read(*old(io), *io) =~= t0.push(byte));
            lemma_header_scan_push(HeaderScan::Searching, t0, byte);
            assert(header_take(scanner@, before.incoming()) == opt_add(
                header_take(header_step(scanner@, byte), io.incoming()),
                1,
            ));
            assert(io.received().subrange(0, start as int) =~= before.received().subrange(
                0,
                start as int,
            ));
            assert(old(io).incoming() =~= t0.push(byte) + io.incoming());
        }
        scanner = scanner.step(byte);
        match scanner {
            HeaderScanner::Found(h) => return Ok(h),
            HeaderScanner::Failed(e) => return Err(e),
            other => {
                scanner = other;
            },
        }
    }
}

/// Reads a data subpacket of at most `max_payload` bytes and checks its CRC.
/// The bytes read are exactly those that take the data reader to a subpacket
/// (or to a failure); otherwise a read failed, and then the channel had
/// nothing to read.
pub fn read_zmodem_data<I: ModemIo>(
    io: &mut I,
    use_crc32: bool,
    max_payload: usize,
) -> (r: Result<ZDataFrame, ModemTransferError>)
    ensures
        consumed_in_order(*old(io), *final(io)),
        r is Ok ==> final(io).pending() < old(io).pending(),
        match r {
            Ok(f) => data_scan(data_start(), bytes_read(*old(io), *final(io)), use_crc32, max_payload as nat)
                == DataScan::Found(f.payload@, f.end),
            Err(e) => data_scan(data_start(), bytes_read(*old(io), *final(io)), use_crc32, max_payload as nat)
                == DataScan::Failed(e) || (!data_is_terminal(
                data_scan(data_start(), bytes_read(*old(io), *final(io)), use_crc32, max_payload as nat),
            ) && !final(io).can_read() && e == final(io).read_failure()),
        },
        old(io).reliable() ==> final(io).reliable() && final(io).read_failure() == old(io).read_failure()
            && if data_is_terminal(
            data_scan(data_start(), bytes_read(*old(io), *final(io)), use_crc32, max_payload as nat),
        ) {
            data_take(data_start(), old(io).incoming(), use_crc32, max_payload as nat) == Some(
                bytes_read(*old(io), *final(io)).len(),
            )
        } else {
            data_take(data_start(), old(io).incoming(), use_crc32, max_payload as nat) is None
                && r == Err::<ZDataFrame, ModemTransferError>(old(io).read_failure())
        },
{
    let mut scanner = DataScanner::Payload(Vec::new(), EscapeScanner::Plain);
    let ghost start = io.received().len();
    assert(io.received().subrange(0, start as int) =~= io.received());
    loop
        invariant
            start == old(io).received().len(),
            consumed_in_order(*old(io), *io),
            scanner@ == data_scan(data_start(), bytes_read(*old(io), *io), use_crc32, max_payload as nat),
            !data_is_terminal(scanner@),
            data_scan_wf(scanner@, use_crc32, max_payload as nat),
            bytes_read(*old(io), *io).len() > 0 ==> io.pending() < old(io).pending(),
            old(io).reliable() ==> io.reliable() && io.read_failure() == old(io).read_failure(),
            data_take(data_start(), old(io).incoming(), use_crc32, max_payload as nat) == opt_add(
                data_take(scanner@, io.incoming(), use_crc32, max_payload as nat),
                bytes_read(*old(io), *io).len(),
            ),
        decreases io.pending(),
    {
        let ghost before = *io;
        let byte = match io.read_byte(ZMODEM_TIMEOUT_MS) {
            Ok(b) => b,
            Err(e) => {
                assert(bytes_read(*old(io), *io) =~= bytes_read(*old(io), before));
                return Err(e);
            },
        };
        proof {
            let t0 = bytes_read(*old(io), before);
            assert(bytes_read(*old(io), *io) =~= t0.push(byte));
            lemma_data_scan_push(data_start(), t0, byte, use_crc32, max_payload as nat);
            assert(data_take(scanner@, before.incoming(), use_crc32, max_payload as nat) == opt_add(
                data_take(data_step(scanner@, byte, use_crc32, max_payload as nat), io.incoming(), use_crc32, max_payload as nat),
                1,
            ));
            assert(io.received().subrange(0, start as int) =~= before.received().subrange(
                0,
                start as int,
            ));
            assert(old(io).incoming() =~= t0.push(byte) + io.incoming());
        }
        scanner = scanner.step(byte, use_crc32, max_payload);
        match scanner {
            DataScanner::Found(payload, end) => return Ok(ZDataFrame { payload, end }),
            DataScanner::Failed(e) => return Err(e),
            other => {
                scanner = other;
            },
        }
    }
}

/// What a ZRINIT header's position bytes announce: the receiver's buffer
/// size (1024 when it names less than 32, at most 8 KiB), CRC-32 and
/// control-byte escaping.
pub open spec fn spec_peer_capabilities(p: Seq<u8>) -> (nat, bool, bool) {
    let advertised = p[0] as nat + p[1] as nat * 256;
    let chunk = if advertised < 32 {
        1024
    } else if advertised < ZMODEM_MAX_CHUNK {
        advertised
    } else {
        ZMODEM_MAX_CHUNK as nat
    };
    (chunk, p[3] & ZMODEM_CAN_CRC32 != 0, p[3] & ZMODEM_ESCAPE_CONTROL != 0)
}

/// Reads the capabilities a ZRINIT header announces.
pub fn peer_capabilities(position: [u8; 4]) -> (r: ZmodemPeerCapabilities)
    ensures
        (r.chunk_size as nat, r.use_crc32, r.escape_control) == spec_peer_capabilities(position@),
{
    let advertised = position[0] as usize + position[1] as usize * 256;
    let chunk_size = if advertised < 32 {
        1024
    } else if advertised < ZMODEM_MAX_CHUNK {
        advertised
    } else {
        ZMODEM_MAX_CHUNK
    };
    let flags = position[3];
    ZmodemPeerCapabilities {
        chunk_size,
        use_crc32: flags & ZMODEM_CAN_CRC32 != 0,
        escape_control: flags & ZMODEM_ESCAPE_CONTROL != 0,
    }
}

/// The ZRINIT header a sender answers a ZRQINIT echo with.
pub open spec fn zrinit_answer() -> Seq<u8> {
    spec_encode_hex_header(ZFrameType::ZrInit, seq![0u8, 32u8, 0u8, 0x63u8], true)
}

/// The ZFIN header that ends a session.
pub open spec fn zfin_header() -> Seq<u8> {
    spec_encode_hex_header(ZFrameType::ZFin, le32_bytes(0), false)
}

/// Waits for the receiver's ZRINIT, answering a ZRQINIT echo with our own.
pub fn wait_for_zrinit<I: ModemIo>(io: &mut I) -> (r: Result<
    ZmodemPeerCapabilities,
    ModemTransferError,
>)
    ensures
        final(io).pending() <= old(io).pending(),
        r matches Ok(c) ==> 32 <= c.chunk_size <= ZMODEM_MAX_CHUNK,
        r is Ok ==> exists|n: nat| final(io).sent() == old(io).sent() + #[trigger] repeat_seq(zrinit_answer(), n),
        old(io).received().len() <= final(io).received().len(),
        r matches Err(e) ==> channel_error(*old(io), *final(io), e),
        r is Ok ==> old(io).received().len() < final(io).received().len(),
{
    let ghost mut answers: nat = 0;
    assert(old(io).sent() + repeat_seq(zrinit_answer(), 0) =~= old(io).sent());
    loop
        invariant
            io.pending() <= old(io).pending(),
            io.sent() == old(io).sent() + repeat_seq(zrinit_answer(), answers),
            old(io).received().len() <= io.received().len(),
        decreases io.pending(),
    {
        let ghost before_hdr = *io;
        let header = match read_zmodem_header(io) {
            Ok(h) => h,
            Err(e) => return Err(e),
        };
        match header.frame_type {
            ZFrameType::ZrInit => {
                assert(bytes_read(before_hdr, *io).len() > 0);
                return Ok(peer_capabilities(header.position));
            },
            ZFrameType::ZrqInit => {
                match write_zheader(io, ZFrameType::ZrInit, zrinit_flags()) {
                    Ok(()) => {},
                    Err(e) => return Err(e),
                }
                proof {
                    assert(io.sent() =~= old(io).sent() + repeat_seq(zrinit_answer(), answers + 1));
                    answers = answers + 1;
                }
            },
            ZFrameType::ZAbort | ZFrameType::ZCan => return Err(ModemTransferError::Cancelled),
            _ => {},
        }
    }
}

/// The byte `O` of the "over and out" sign-off.
pub const OVER_AND_OUT: u8 = 0x4f;

/// Whether the last two bytes are the "OO" sign-off.
pub open spec fn ends_with_oo(s: Seq<u8>) -> bool {
    s.len() >= 2 && s[s.len() - 1] == OVER_AND_OUT && s[s.len() - 2] == OVER_AND_OUT
}

/// The last five bytes are ZDLE (CAN): the peer cancelled.
pub open spec fn ends_with_cancel(s: Seq<u8>) -> bool {
    s.len() >= 5 && forall|j: int| 1 <= j <= 5 ==> #[trigger] s[s.len() - j] == ZDLE
}

/// How the wait for the sender's "OO" ends on a reliable channel whose
/// unread input is `input`, having seen `o` O bytes and `c` ZDLE bytes in a
/// row: two O bytes in a row end it well, five ZDLE bytes cancel, running
/// out of input fails with `rf`.
pub open spec fn zfin_wait(input: Seq<u8>, o: nat, c: nat, rf: ModemTransferError) -> Result<(), ModemTransferError>
    decreases input.len(),
{
    if input.len() == 0 {
        Err(rf)
    } else {
        let b = input[0];
        let o2 = if b == OVER_AND_OUT {
            o + 1
        } else {
            0
        };
        let c2 = if b == ZDLE {
            c + 1
        } else {
            0
        };
        if o2 == 2 {
            Ok(())
        } else if c2 == 5 {
            Err(ModemTransferError::Cancelled)
        } else {
            zfin_wait(input.drop_first(), o2, c2, rf)
        }
    }
}

/// Ends a receive session: sends ZFIN and waits for the sender's "OO";
/// five ZDLE (CAN) bytes in a row cancel.
pub fn finish_zmodem_receive<I: ModemIo>(io: &mut I) -> (r: Result<(), ModemTransferError>)
    ensures
        final(io).pending() <= old(io).pending(),
        r is Ok ==> final(io).sent() == old(io).sent() + spec_encode_hex_header(
            ZFrameType::ZFin,
            le32_bytes(0),
            false,
        ) && final(io).received().len() >= old(io).received().len() + 2 && ends_with_oo(
            final(io).received(),
        ),
        final(io).received().len() >= old(io).received().len(),
        final(io).received().subrange(0, old(io).received().len() as int) == old(io).received(),
        r matches Err(e) ==> channel_error(*old(io), *final(io), e),
        r matches Err(e) ==> (exists|n: nat| #[trigger] final(io).write_refusal(n) == Some(e)) || (
        !final(io).can_read() && e == final(io).read_failure()) || (e
            == ModemTransferError::Cancelled && final(io).received().len() >= old(io).received().len() + 5
            && ends_with_cancel(final(io).received())),
        old(io).reliable() ==> r == zfin_wait(old(io).incoming(), 0, 0, old(io).read_failure())
            && final(io).sent() == old(io).sent() + zheader_at(ZFrameType::ZFin, 0),
{
    match write_zheader(io, ZFrameType::ZFin, position_header(0)) {
        Ok(()) => {},
        Err(e) => return Err(e),
    }
    let ghost sent = io.sent();
    let ghost base = io.received().len();
    let mut consecutive_o: usize = 0;
    let mut consecutive_cancel: usize = 0;
    assert(io.received().subrange(0, base as int) =~= old(io).received());
    loop
        invariant
            io.pending() <= old(io).pending(),
            io.sent() == sent,
            sent == old(io).sent() + spec_encode_hex_header(ZFrameType::ZFin, le32_bytes(0), false),
            base == old(io).received().len(),
            io.received().len() >= base,
            io.received().subrange(0, base as int) == old(io).received(),
            consecutive_o <= 1,
            consecutive_o == 1 ==> io.received().len() >= base + 1 && io.received().last()
                == OVER_AND_OUT,
            consecutive_cancel < 5,
            io.received().len() >= base + consecutive_cancel,
            old(io).reliable() ==> io.reliable() && io.read_failure() == old(io).read_failure()
                && zfin_wait(old(io).incoming(), 0, 0, old(io).read_failure()) == zfin_wait(
                io.incoming(),
                consecutive_o as nat,
                consecutive_cancel as nat,
                old(io).read_failure(),
            ),
            forall|j: int|
                1 <= j <= consecutive_cancel ==> #[trigger] io.received()[io.received().len() - j]
                    == ZDLE,
        decreases io.pending(),
    {
        let ghost before = io.received();
        let byte = match io.read_byte(ZMODEM_TIMEOUT_MS) {
            Ok(b) => b,
            Err(e) => return Err(e),
        };
        assert(io.received().subrange(0, base as int) =~= before.subrange(0, base as int));
        consecutive_o = if byte == OVER_AND_OUT {
            consecutive_o + 1
        } else {
            0
        };
        if consecutive_o == 2 {
            return Ok(());
        }
        consecutive_cancel = if byte == ZDLE {
            consecutive_cancel + 1
        } else {
            0
        };
        assert forall|j: int|
            1 <= j <= consecutive_cancel implies #[trigger] io.received()[io.received().len() - j]
                == ZDLE by {
            if j > 1 {
                assert(io.received()[io.received().len() - j] == before[before.len() - (j - 1)]);
            }
        }
        if consecutive_cancel == 5 {
            return Err(ModemTransferError::Cancelled);
        }
    }
}

/// Ends a send session: up to three ZFIN rounds; on the receiver's ZFIN
/// answers "OO".
pub fn finish_zmodem_send<I: ModemIo>(io: &mut I) -> (r: Result<(), ModemTransferError>)
    ensures
        final(io).pending() <= old(io).pending(),
        r is Ok ==> final(io).sent().len() >= old(io).sent().len() + 2 && ends_with_oo(
            final(io).sent(),
        ),
        r is Ok ==> exists|k: nat|
            1 <= k <= 3 && final(io).sent() == old(io).sent() + #[trigger] repeat_seq(zfin_header(), k)
                + seq![OVER_AND_OUT, OVER_AND_OUT],
        old(io).sent().is_prefix_of(final(io).sent()),
        old(io).received().len() <= final(io).received().len(),
        r matches Err(e) ==> channel_error(*old(io), *final(io), e),
{
    let mut attempt: usize = 0;
    assert(old(io).sent() + repeat_seq(zfin_header(), 0) =~= old(io).sent());
    assert(old(io).sent().subrange(0, old(io).sent().len() as int) =~= old(io).sent());
    while attempt < 3
        invariant
            io.pending() <= old(io).pending(),
            io.sent().len() >= old(io).sent().len(),
            attempt <= 3,
            io.sent() == old(io).sent() + repeat_seq(zfin_header(), attempt as nat),
            old(io).sent().is_prefix_of(io.sent()),
            old(io).received().len() <= io.received().len(),
            attempt > 0 ==> old(io).received().len() < io.received().len(),
        decreases 3 - attempt,
    {
        match write_zheader(io, ZFrameType::ZFin, position_header(0)) {
            Ok(()) => {},
            Err(e) => {
                proof {
                    lemma_prefix_of_append(old(io).sent(), repeat_seq(zfin_header(), attempt as nat));
                }
                return Err(e);
            },
        }
        assert(io.sent() =~= old(io).sent() + repeat_seq(zfin_header(), attempt as nat + 1));
        proof {
            lemma_prefix_of_append(old(io).sent(), repeat_seq(zfin_header(), attempt as nat + 1));
        }
        let header = match read_zmodem_header(io) {
            Ok(h) => h,
            Err(e) => return Err(e),
        };
        if header.frame_type == ZFrameType::ZFin {
            let ghost before = io.sent();
            let oo = vec![OVER_AND_OUT, OVER_AND_OUT];
            let r = io.write_all(oo.as_slice());
            proof {
                if r is Ok {
                    assert(io.sent() == before + oo@);
                    assert(io.sent()[io.sent().len() - 1] == OVER_AND_OUT);
                    assert(io.sent()[io.sent().len() - 2] == OVER_AND_OUT);
                    assert(oo@ =~= seq![OVER_AND_OUT, OVER_AND_OUT]);
                    lemma_prefix_of_append(before, oo@);
                    lemma_prefix_trans(old(io).sent(), before, io.sent());
                }
            }
            return r;
        }
        if header.frame_type == ZFrameType::ZAbort || header.frame_type == ZFrameType::ZCan
            || header.frame_type == ZFrameType::ZFerr {
            return Err(ModemTransferError::Cancelled);
        }
        attempt = attempt + 1;
    }
    Err(ModemTransferError::Timeout)
}

/// How a data phase of a ZMODEM upload ended.
#[derive(Clone, Copy, Debug, PartialEq, Eq, Structural)]
pub enum ZmodemSendDataResult {
    /// All data and ZEOF were sent.
    Complete,
    /// The receiver asked to restart at this position.
    ResumeAt(u64),
    /// The receiver skipped the file.
    Skip,
}

/// The data subpackets of `chunks`, each asking for an acknowledgement,
/// but the last one ending the frame when `ended`.
pub open spec fn zdata_subpackets(
    chunks: Seq<Seq<u8>>,
    use_crc32: bool,
    escape_control: bool,
    ended: bool,
) -> Seq<u8>
    decreases chunks.len(),
{
    if chunks.len() == 0 {
        Seq::empty()
    } else {
        zdata_subpackets(chunks.drop_last(), use_crc32, escape_control, false) + spec_encode_zdata(
            chunks.last(),
            if ended {
                ZDataEnd::End
            } else {
                ZDataEnd::ContinueWithAck
            },
            use_crc32,
            escape_control,
        )
    }
}

/// A binary header with the peer's CRC width.
pub open spec fn zbinary_header(t: ZFrameType, position: Seq<u8>, use_crc32: bool, escape_control: bool) -> Seq<
    u8,
> {
    if use_crc32 {
        spec_encode_bin32_header(t, position, escape_control)
    } else {
        spec_encode_bin16_header(t, position, escape_control)
    }
}

/// What a completed data phase from `start` sends: the ZDATA header, the
/// chunks as subpackets (an empty one when there is nothing to send), and
/// ZEOF at the file size.
pub open spec fn zdata_phase_sent(
    start: u64,
    chunks: Seq<Seq<u8>>,
    file_size: u64,
    use_crc32: bool,
    escape_control: bool,
) -> Seq<u8> {
    zbinary_header(ZFrameType::ZData, le32_bytes(start as u32), use_crc32, escape_control) + (if chunks.len()
        == 0 {
        spec_encode_zdata(Seq::empty(), ZDataEnd::End, use_crc32, escape_control)
    } else {
        zdata_subpackets(chunks, use_crc32, escape_control, true)
    }) + spec_encode_hex_header(ZFrameType::ZEof, le32_bytes(file_size as u32), true)
}

/// Chunks as a data phase reads them: non-empty and at most `limit` bytes.
pub open spec fn zdata_chunks_ok(chunks: Seq<Seq<u8>>, limit: nat) -> bool {
    forall|i: int| 0 <= i < chunks.len() ==> 0 < #[trigger] chunks[i].len() <= limit
}

proof fn lemma_chunks_push(chunks: Seq<Seq<u8>>, c: Seq<u8>, limit: nat)
    requires
        zdata_chunks_ok(chunks, limit),
        0 < c.len() <= limit,
    ensures
        zdata_chunks_ok(chunks.push(c), limit),
        concat_units(chunks.push(c)) == concat_units(chunks) + c,
        chunks.push(c).drop_last() == chunks,
{
    assert(chunks.push(c).drop_last() =~= chunks);
    assert forall|i: int| 0 <= i < chunks.len() + 1 implies 0 < #[trigger] chunks.push(c)[i].len() <= limit by {
        if i < chunks.len() {
            assert(chunks.push(c)[i] == chunks[i]);
        }
    }
}

/// Where an error `e` of a data phase came from: the channel, the reader
/// failing or running out before the file size, or a size past 32-bit
/// positions.
pub open spec fn zfile_data_error<I: ModemIo, R: ModemRead>(
    io0: I,
    io1: I,
    reader0: R,
    reader1: R,
    file_size: u64,
    offset: u64,
    e: ModemTransferError,
) -> bool {
    let start = if offset < file_size {
        offset
    } else {
        file_size
    };
    ||| channel_error(io0, io1, e)
    ||| reader1.failure() == Some(e)
    ||| (file_size > ZMODEM_MAX_POSITION && e matches ModemTransferError::UnsupportedFileSize(_))
    ||| (e == ModemTransferError::UnexpectedFrame && reader1.consumed().len()
        < reader0.consumed().len() + file_size - start)
}

/// What the sender does with the receiver's answer to a subpacket that
/// asked for one.
#[derive(Clone, Copy, Debug, PartialEq, Eq, Structural)]
pub enum ZAckReply {
    /// The receiver has the data so far: go on.
    Continue,
    /// The receiver asks to restart at this position.
    ResumeAt(u64),
    /// The receiver skips the file.
    Skip,
    /// The receiver cancels.
    Cancelled,
    /// Any other answer.
    Unexpected,
}

/// A ZACK must name the length sent so far; ZRPOS asks to restart there;
/// ZSKIP skips the file; ZABORT and ZCAN cancel; anything else is
/// unexpected.
pub open spec fn spec_ack_reply(t: ZFrameType, position: nat, sent_offset: nat) -> ZAckReply {
    match t {
        ZFrameType::ZAck => if position == sent_offset {
            ZAckReply::Continue
        } else {
            ZAckReply::Unexpected
        },
        ZFrameType::ZRpos => ZAckReply::ResumeAt(position as u64),
        ZFrameType::ZSkip => ZAckReply::Skip,
        ZFrameType::ZAbort | ZFrameType::ZCan => ZAckReply::Cancelled,
        _ => ZAckReply::Unexpected,
    }
}

/// Decides what the answer `t` at `position` to a subpacket means, with
/// `sent_offset` bytes sent.
pub fn zmodem_ack_reply(t: ZFrameType, position: u32, sent_offset: u64) -> (r: ZAckReply)
    ensures
        r == spec_ack_reply(t, position as nat, sent_offset as nat),
{
    match t {
        ZFrameType::ZAck => if position as u64 == sent_offset {
            ZAckReply::Continue
        } else {
            ZAckReply::Unexpected
        },
        ZFrameType::ZRpos => ZAckReply::ResumeAt(position as u64),
        ZFrameType::ZSkip => ZAckReply::Skip,
        ZFrameType::ZAbort | ZFrameType::ZCan => ZAckReply::Cancelled,
        _ => ZAckReply::Unexpected,
    }
}

/// How a sender answers the replies to a subpacket: a ZACK naming exactly
/// the bytes sent goes on and one naming anything else is refused; ZRPOS
/// restarts at its position; ZSKIP skips the file; ZABORT and ZCAN cancel;
/// every other frame is refused.
pub proof fn lemma_ack_reply_laws(t: ZFrameType, position: nat, sent_offset: nat)
    ensures
        t == ZFrameType::ZAck && position == sent_offset ==> spec_ack_reply(t, position, sent_offset)
            == ZAckReply::Continue,
        t == ZFrameType::ZAck && position != sent_offset ==> spec_ack_reply(t, position, sent_offset)
            == ZAckReply::Unexpected,
        t == ZFrameType::ZRpos ==> spec_ack_reply(t, position, sent_offset) == ZAckReply::ResumeAt(
            position as u64,
        ),
        t == ZFrameType::ZSkip ==> spec_ack_reply(t, position, sent_offset) == ZAckReply::Skip,
        t == ZFrameType::ZAbort || t == ZFrameType::ZCan ==> spec_ack_reply(t, position, sent_offset)
            == ZAckReply::Cancelled,
        t != ZFrameType::ZAck && t != ZFrameType::ZRpos && t != ZFrameType::ZSkip && t
            != ZFrameType::ZAbort && t != ZFrameType::ZCan ==> spec_ack_reply(t, position, sent_offset)
            == ZAckReply::Unexpected,
{
}

/// What the sender does with an answer about a whole file: its offer, or
/// its end.
#[derive(Clone, Copy, Debug, PartialEq, Eq, Structural)]
pub enum ZFileReply {
    /// Send the data from this position.
    SendFrom(u64),
    /// The receiver took the whole file.
    Taken,
    /// The receiver skips the file.
    Skip,
    /// The receiver cancels.
    Cancelled,
    /// Wait for another answer.
    Ignore,
    /// An answer that is refused.
    Unexpected,
}

/// The answer to a file offer: ZRPOS at a position within the file starts
/// the data there (past its end is refused); ZSKIP skips; ZABORT and ZCAN
/// cancel; other headers are passed over.
pub open spec fn spec_offer_reply(t: ZFrameType, position: nat, file_size: nat) -> ZFileReply {
    match t {
        ZFrameType::ZRpos => if position > file_size {
            ZFileReply::Unexpected
        } else {
            ZFileReply::SendFrom(position as u64)
        },
        ZFrameType::ZSkip => ZFileReply::Skip,
        ZFrameType::ZAbort | ZFrameType::ZCan => ZFileReply::Cancelled,
        _ => ZFileReply::Ignore,
    }
}

/// Decides what the answer `t` at `position` to the offer of a file of
/// `file_size` bytes means.
pub fn zmodem_offer_reply(t: ZFrameType, position: u32, file_size: u64) -> (r: ZFileReply)
    ensures
        r == spec_offer_reply(t, position as nat, file_size as nat),
{
    match t {
        ZFrameType::ZRpos => if position as u64 > file_size {
            ZFileReply::Unexpected
        } else {
            ZFileReply::SendFrom(position as u64)
        },
        ZFrameType::ZSkip => ZFileReply::Skip,
        ZFrameType::ZAbort | ZFrameType::ZCan => ZFileReply::Cancelled,
        _ => ZFileReply::Ignore,
    }
}

/// The answer after a file's data and ZEOF: ZRINIT takes the file; ZRPOS
/// within the file resends from there (past its end is refused); ZSKIP
/// skips; ZABORT and ZCAN cancel; anything else is unexpected.
pub open spec fn spec_end_reply(t: ZFrameType, position: nat, file_size: nat) -> ZFileReply {
    match t {
        ZFrameType::ZrInit => ZFileReply::Taken,
        ZFrameType::ZRpos => if position > file_size {
            ZFileReply::Unexpected
        } else {
            ZFileReply::SendFrom(position as u64)
        },
        ZFrameType::ZSkip => ZFileReply::Skip,
        ZFrameType::ZAbort | ZFrameType::ZCan => ZFileReply::Cancelled,
        _ => ZFileReply::Unexpected,
    }
}

/// Decides what the answer `t` at `position` after a file of `file_size`
/// bytes was sent means.
pub fn zmodem_end_reply(t: ZFrameType, position: u32, file_size: u64) -> (r: ZFileReply)
    ensures
        r == spec_end_reply(t, position as nat, file_size as nat),
{
    match t {
        ZFrameType::ZrInit => ZFileReply::Taken,
        ZFrameType::ZRpos => if position as u64 > file_size {
            ZFileReply::Unexpected
        } else {
            ZFileReply::SendFrom(position as u64)
        },
        ZFrameType::ZSkip => ZFileReply::Skip,
        ZFrameType::ZAbort | ZFrameType::ZCan => ZFileReply::Cancelled,
        _ => ZFileReply::Unexpected,
    }
}

/// How a sender answers the replies to a file offer: ZRPOS within the file
/// starts the data there and past its end is refused; ZSKIP passes the file
/// over; ZABORT and ZCAN cancel; any other frame is waited past.
pub proof fn lemma_offer_reply_laws(t: ZFrameType, position: nat, file_size: nat)
    ensures
        t == ZFrameType::ZRpos && position <= file_size ==> spec_offer_reply(t, position, file_size)
            == ZFileReply::SendFrom(position as u64),
        t == ZFrameType::ZRpos && position > file_size ==> spec_offer_reply(t, position, file_size)
            == ZFileReply::Unexpected,
        t == ZFrameType::ZSkip ==> spec_offer_reply(t, position, file_size) == ZFileReply::Skip,
        t == ZFrameType::ZAbort || t == ZFrameType::ZCan ==> spec_offer_reply(t, position, file_size)
            == ZFileReply::Cancelled,
        t != ZFrameType::ZRpos && t != ZFrameType::ZSkip && t != ZFrameType::ZAbort && t
            != ZFrameType::ZCan ==> spec_offer_reply(t, position, file_size) == ZFileReply::Ignore,
{
}

/// How a sender answers the reply after a file's data: ZRINIT means the
/// file was taken; ZRPOS within the file resends from there and past its end
/// is refused; ZSKIP passes the file over; ZABORT and ZCAN cancel; every
/// other frame is refused.
pub proof fn lemma_end_reply_laws(t: ZFrameType, position: nat, file_size: nat)
    ensures
        t == ZFrameType::ZrInit ==> spec_end_reply(t, position, file_size) == ZFileReply::Taken,
        t == ZFrameType::ZRpos && position <= file_size ==> spec_end_reply(t, position, file_size)
            == ZFileReply::SendFrom(position as u64),
        t == ZFrameType::ZRpos && position > file_size ==> spec_end_reply(t, position, file_size)
            == ZFileReply::Unexpected,
        t == ZFrameType::ZSkip ==> spec_end_reply(t, position, file_size) == ZFileReply::Skip,
        t == ZFrameType::ZAbort || t == ZFrameType::ZCan ==> spec_end_reply(t, position, file_size)
            == ZFileReply::Cancelled,
        t != ZFrameType::ZrInit && t != ZFrameType::ZRpos && t != ZFrameType::ZSkip && t
            != ZFrameType::ZAbort && t != ZFrameType::ZCan ==> spec_end_reply(t, position, file_size)
            == ZFileReply::Unexpected,
{
}

/// Sends the reader's bytes from `offset` (capped at `file_size`) as ZDATA
/// subpackets, waiting for an acknowledgement after each but the last,
/// then ZEOF.
pub fn send_zfile_data_stream<I: ModemIo, R: ModemRead>(
    io: &mut I,
    reader: &mut R,
    file_size: u64,
    offset: u64,
    peer: ZmodemPeerCapabilities,
) -> (r: Result<ZmodemSendDataResult, ModemTransferError>)
    ensures
        final(io).pending() <= old(io).pending(),
        old(io).sent().is_prefix_of(final(io).sent()),
        (r matches Ok(ZmodemSendDataResult::ResumeAt(_)) || r matches Ok(
            ZmodemSendDataResult::Skip,
        )) ==> final(io).pending() < old(io).pending(),
        r matches Ok(ZmodemSendDataResult::Complete) ==> final(reader).consumed().len() == old(
            reader,
        ).consumed().len() + file_size - (if offset < file_size {
            offset
        } else {
            file_size
        }),
        r matches Ok(ZmodemSendDataResult::Complete) ==> exists|chunks: Seq<Seq<u8>>|
            #[trigger] zdata_chunks_ok(chunks, peer.chunk_size as nat) && final(reader).consumed()
                == old(reader).consumed() + concat_units(chunks) && final(io).sent() == old(
                io,
            ).sent() + zdata_phase_sent(
                if offset < file_size {
                    offset
                } else {
                    file_size
                },
                chunks,
                file_size,
                peer.use_crc32,
                peer.escape_control,
            ),
        old(io).received().len() <= final(io).received().len(),
        r matches Err(e) ==> zfile_data_error(*old(io), *final(io), *old(reader), *final(reader), file_size, offset, e),
{
    let start = if offset < file_size {
        offset
    } else {
        file_size
    };
    assert(old(io).sent().subrange(0, old(io).sent().len() as int) =~= old(io).sent());
    match reader.seek_to(start) {
        Ok(()) => {},
        Err(e) => return Err(e),
    }
    let position = match position_header_checked(start) {
        Ok(p) => p,
        Err(e) => return Err(e),
    };
    match write_zbinary_header(
        io,
        ZFrameType::ZData,
        position,
        peer.use_crc32,
        peer.escape_control,
    ) {
        Ok(()) => {},
        Err(e) => return Err(e),
    }
    let ghost hdr_sent = io.sent();
    proof {
        lemma_prefix_of_append(old(io).sent(), zbinary_header(ZFrameType::ZData, position@, peer.use_crc32, peer.escape_control));
    }
    let ghost mut chunks: Seq<Seq<u8>> = Seq::empty();
    assert(old(reader).consumed() + Seq::<u8>::empty() =~= old(reader).consumed());
    assert(hdr_sent + Seq::<u8>::empty() =~= hdr_sent);
    let mut sent_offset = start;
    while sent_offset < file_size
        invariant
            start <= sent_offset <= file_size,
            reader.consumed().len() == old(reader).consumed().len() + (sent_offset - start),
            io.pending() <= old(io).pending(),
            zdata_chunks_ok(chunks, peer.chunk_size as nat),
            reader.consumed() == old(reader).consumed() + concat_units(chunks),
            io.sent() == hdr_sent + zdata_subpackets(
                chunks,
                peer.use_crc32,
                peer.escape_control,
                sent_offset == file_size,
            ),
            (chunks.len() == 0) == (sent_offset == start),
            old(io).sent().is_prefix_of(io.sent()),
            old(io).received().len() <= io.received().len(),
            start == (if offset < file_size {
                offset
            } else {
                file_size
            }),
        decreases file_size - sent_offset,
    {
        let left = file_size - sent_offset;
        let want: usize = if left < peer.chunk_size as u64 {
            left as usize
        } else {
            peer.chunk_size
        };
        let chunk = match read_padded(reader, want) {
            Ok(c) => c,
            Err(e) => return Err(e),
        };
        if chunk.len() == 0 {
            return Err(ModemTransferError::UnexpectedFrame);
        }
        sent_offset = sent_offset + chunk.len() as u64;
        let frame_end = if sent_offset < file_size {
            ZDataEnd::ContinueWithAck
        } else {
            ZDataEnd::End
        };
        let ghost before_write = io.sent();
        match write_zdata(io, chunk.as_slice(), frame_end, peer.use_crc32, peer.escape_control) {
            Ok(()) => {},
            Err(e) => return Err(e),
        }
        proof {
            lemma_prefix_of_append(before_write, io.sent().subrange(before_write.len() as int, io.sent().len() as int));
            assert(before_write + io.sent().subrange(before_write.len() as int, io.sent().len() as int) =~= io.sent());
            lemma_prefix_trans(old(io).sent(), before_write, io.sent());
            let prev = chunks;
            lemma_chunks_push(prev, chunk@, peer.chunk_size as nat);
            chunks = chunks.push(chunk@);
            assert(io.sent() =~= hdr_sent + zdata_subpackets(
                chunks,
                peer.use_crc32,
                peer.escape_control,
                sent_offset == file_size,
            ));
            assert(reader.consumed() =~= old(reader).consumed() + concat_units(chunks));
        }
        if frame_end == ZDataEnd::ContinueWithAck {
            let response = match read_zmodem_header(io) {
                Ok(h) => h,
                Err(e) => return Err(e),
            };
            match zmodem_ack_reply(response.frame_type, response.position_u32(), sent_offset) {
                ZAckReply::Continue => {},
                ZAckReply::ResumeAt(p) => {
                    return Ok(ZmodemSendDataResult::ResumeAt(p));
                },
                ZAckReply::Skip => return Ok(ZmodemSendDataResult::Skip),
                ZAckReply::Cancelled => {
                    return Err(ModemTransferError::Cancelled);
                },
                ZAckReply::Unexpected => return Err(ModemTransferError::UnexpectedFrame),
            }
        }
    }
    if start == file_size {
        let empty: Vec<u8> = Vec::new();
        let ghost before_empty = io.sent();
        match write_zdata(io, empty.as_slice(), ZDataEnd::End, peer.use_crc32, peer.escape_control) {
            Ok(()) => {},
            Err(e) => return Err(e),
        }
        proof {
            lemma_prefix_of_append(before_empty, spec_encode_zdata(empty@, ZDataEnd::End, peer.use_crc32, peer.escape_control));
            lemma_prefix_trans(old(io).sent(), before_empty, io.sent());
        }
    }
    let ghost mid_sent = io.sent();
    let eof_position = match position_header_checked(file_size) {
        Ok(p) => p,
        Err(e) => return Err(e),
    };
    match write_zheader(io, ZFrameType::ZEof, eof_position) {
        Ok(()) => {},
        Err(e) => return Err(e),
    }
    proof {
        lemma_prefix_of_append(old(io).sent(), io.sent().subrange(old(io).sent().len() as int, io.sent().len() as int));
        assert(header_has_xon(ZFrameType::ZEof));
        assert(io.sent() =~= old(io).sent() + zdata_phase_sent(
            start,
            chunks,
            file_size,
            peer.use_crc32,
            peer.escape_control,
        ));
        assert(zdata_chunks_ok(chunks, peer.chunk_size as nat));
    }
    Ok(ZmodemSendDataResult::Complete)
}


/// The total declared size of an upload batch.
pub open spec fn zmodem_declared_size<R>(entries: Seq<ZmodemSendStreamEntry<R>>) -> nat
    decreases entries.len(),
{
    if entries.len() == 0 {
        0
    } else {
        zmodem_declared_size(entries.drop_last()) + entries.last().file_size as nat
    }
}

/// The first entry whose size does not fit 32-bit positions, if any.
pub open spec fn first_oversized<R>(entries: Seq<ZmodemSendStreamEntry<R>>) -> int {
    find_first(entries, |e: ZmodemSendStreamEntry<R>| e.file_size > ZMODEM_MAX_POSITION)
}

proof fn lemma_zmodem_prefix_bound<R>(entries: Seq<ZmodemSendStreamEntry<R>>, i: int)
    requires
        0 <= i <= entries.len(),
    ensures
        zmodem_declared_size(entries.subrange(0, i)) <= zmodem_declared_size(entries),
    decreases entries.len() - i,
{
    if i < entries.len() {
        lemma_zmodem_prefix_bound(entries, i + 1);
        assert(entries.subrange(0, i + 1).drop_last() =~= entries.subrange(0, i));
    } else {
        assert(entries.subrange(0, i) =~= entries);
    }
}

/// `s` ends with `t`.
pub open spec fn ends_with(s: Seq<u8>, t: Seq<u8>) -> bool {
    t.len() <= s.len() && s.subrange(s.len() - t.len(), s.len() as int) == t
}

proof fn lemma_ends_with_append(a: Seq<u8>, b: Seq<u8>)
    ensures
        ends_with(a + b, b),
{
    assert((a + b).subrange(a.len() as int, (a + b).len() as int) =~= b);
}

/// What follows a prefix of `s` ends with `p` when `s + p` does.
proof fn lemma_rest_ends_with(a: Seq<u8>, s: Seq<u8>, p: Seq<u8>)
    requires
        a.is_prefix_of(s),
    ensures
        ends_with((s + p).subrange(a.len() as int, (s + p).len() as int), p),
{
    let t = (s + p).subrange(a.len() as int, (s + p).len() as int);
    assert(t.subrange(t.len() - p.len(), t.len() as int) =~= p);
}

/// The offer of a file: a binary ZFILE header, then its name and size in a
/// data subpacket that asks for an answer.
pub open spec fn zfile_offer(name: Seq<char>, size: u64, use_crc32: bool, escape_control: bool) -> Seq<u8> {
    zbinary_header(
        ZFrameType::ZFile,
        seq![0u8, 0u8, 0u8, ZMODEM_BINARY_FILE_CONVERSION],
        use_crc32,
        escape_control,
    ) + spec_encode_zdata(
        spec_build_zfile_header(name, size),
        ZDataEnd::EndWithAck,
        use_crc32,
        escape_control,
    )
}

/// The name and size of each upload entry.
pub open spec fn stream_files<R>(entries: Seq<ZmodemSendStreamEntry<R>>) -> Seq<(Seq<char>, u64)> {
    Seq::new(entries.len(), |k: int| (entries[k].file_name@, entries[k].file_size))
}

/// Each file's offer, followed by what went out for it after the offer.
pub open spec fn zoffers_sent(
    files: Seq<(Seq<char>, u64)>,
    afters: Seq<Seq<u8>>,
    use_crc32: bool,
    escape_control: bool,
) -> Seq<u8>
    decreases afters.len(),
{
    if afters.len() == 0 || files.len() < afters.len() {
        Seq::empty()
    } else {
        let k = afters.len() - 1;
        zoffers_sent(files, afters.drop_last(), use_crc32, escape_control) + zfile_offer(
            files[k].0,
            files[k].1,
            use_crc32,
            escape_control,
        ) + afters.last()
    }
}

/// The total size of the files marked taken.
pub open spec fn taken_size(files: Seq<(Seq<char>, u64)>, taken: Seq<bool>) -> nat
    decreases taken.len(),
{
    if taken.len() == 0 || files.len() < taken.len() {
        0
    } else {
        taken_size(files, taken.drop_last()) + if taken.last() {
            files[taken.len() - 1].1 as nat
        } else {
            0
        }
    }
}

/// `after` ends with a completed data phase, from `start`, of a file of
/// `size` bytes, made of `chunks`, for a peer with chunk size, CRC-32 and
/// escaping `peer`.
pub open spec fn ends_with_phase(
    after: Seq<u8>,
    size: u64,
    start: u64,
    chunks: Seq<Seq<u8>>,
    peer: (nat, bool, bool),
) -> bool {
    &&& start <= size
    &&& zdata_chunks_ok(chunks, peer.0)
    &&& concat_units(chunks).len() == size - start
    &&& ends_with(after, zdata_phase_sent(start, chunks, size, peer.1, peer.2))
}

/// What a ZMODEM upload of `files` sent after `sent0` to end at `sent1`:
/// `answers` ZRINIT answers to ZRQINIT, then each file's offer and what
/// followed it, then `fins` ZFIN rounds and "OO". Every file marked taken
/// had a completed data phase (`phases`: its start and chunks) as the last
/// thing sent for it, and `total` is the size of those files.
pub open spec fn zmodem_upload_sent(
    files: Seq<(Seq<char>, u64)>,
    sent0: Seq<u8>,
    sent1: Seq<u8>,
    total: nat,
    answers: nat,
    peer: (nat, bool, bool),
    afters: Seq<Seq<u8>>,
    taken: Seq<bool>,
    phases: Seq<(u64, Seq<Seq<u8>>)>,
    fins: nat,
) -> bool {
    &&& 32 <= peer.0 <= ZMODEM_MAX_CHUNK
    &&& afters.len() == files.len()
    &&& taken.len() == files.len()
    &&& phases.len() == files.len()
    &&& 1 <= fins <= 3
    &&& sent1 == sent0 + repeat_seq(zrinit_answer(), answers) + zoffers_sent(
        files,
        afters,
        peer.1,
        peer.2,
    ) + repeat_seq(zfin_header(), fins) + seq![OVER_AND_OUT, OVER_AND_OUT]
    &&& total == taken_size(files, taken)
    &&& forall|k: int|
        0 <= k < files.len() && #[trigger] taken[k] ==> ends_with_phase(
            afters[k],
            files[k].1,
            phases[k].0,
            phases[k].1,
            peer,
        )
}

/// Each reader of a file marked taken handed out, last, the bytes of its
/// completed data phase.
pub open spec fn readers_supplied<R: ModemRead>(
    entries: Seq<ZmodemSendStreamEntry<R>>,
    taken: Seq<bool>,
    phases: Seq<(u64, Seq<Seq<u8>>)>,
) -> bool {
    forall|k: int|
        0 <= k < entries.len() && #[trigger] taken[k] ==> ends_with(
            entries[k].reader.consumed(),
            concat_units(phases[k].1),
        )
}

/// Some record of handshakes, offers, data phases and ZFIN rounds makes
/// the upload of `entries0` go from `sent0` to `sent1` with `total` bytes
/// taken, the readers (now `entries1`) having handed out each taken file's
/// data.
pub open spec fn zmodem_stream_uploaded<R: ModemRead>(
    entries0: Seq<ZmodemSendStreamEntry<R>>,
    entries1: Seq<ZmodemSendStreamEntry<R>>,
    sent0: Seq<u8>,
    sent1: Seq<u8>,
    total: nat,
) -> bool {
    exists|
        answers: nat,
        peer: (nat, bool, bool),
        afters: Seq<Seq<u8>>,
        taken: Seq<bool>,
        phases: Seq<(u64, Seq<Seq<u8>>)>,
        fins: nat,
    |
        #[trigger] zmodem_upload_sent(
            stream_files(entries0),
            sent0,
            sent1,
            total,
            answers,
            peer,
            afters,
            taken,
            phases,
            fins,
        ) && readers_supplied(entries1, taken, phases)
}

/// Uploads a batch with ZMODEM; returns the number of bytes of the files the
/// receiver took in full (skipped files do not count). Every size must fit
/// 32-bit positions: otherwise the first one that does not is refused before
/// anything is sent.
#[verifier::rlimit(100)]
#[verifier::spinoff_prover]
pub fn send_zmodem_stream<I: ModemIo, R: ModemRead>(
    io: &mut I,
    entries: &mut Vec<ZmodemSendStreamEntry<R>>,
) -> (r: Result<u64, ModemTransferError>)
    requires
        zmodem_declared_size(old(entries)@) <= u64::MAX,
    ensures
        final(io).pending() <= old(io).pending(),
        final(entries)@.len() == old(entries)@.len(),
        first_oversized(old(entries)@) < old(entries)@.len() ==> (r matches Err(
            ModemTransferError::UnsupportedFileSize(n),
        ) && n == old(entries)@[first_oversized(old(entries)@)].file_size && *final(io)
            == *old(io)),
        r matches Ok(total) ==> first_oversized(old(entries)@) == old(entries)@.len() && total
            <= zmodem_declared_size(old(entries)@) && ends_with_oo(final(io).sent()),
        r matches Err(e) ==> (first_oversized(old(entries)@) < old(entries)@.len() && *final(io)
            == *old(io)) || channel_error(*old(io), *final(io), e),
        r matches Ok(total) ==> zmodem_stream_uploaded(
            old(entries)@,
            final(entries)@,
            old(io).sent(),
            final(io).sent(),
            total as nat,
        ),
{
    let ghost oversized = |e: ZmodemSendStreamEntry<R>| e.file_size > ZMODEM_MAX_POSITION;
    let mut v: usize = 0;
    while v < entries.len()
        invariant
            v <= entries@.len(),
            entries@ == old(entries)@,
            oversized == (|e: ZmodemSendStreamEntry<R>| e.file_size > ZMODEM_MAX_POSITION),
            forall|k: int| 0 <= k < v ==> !oversized(#[trigger] entries@[k]),
        decreases entries.len() - v,
    {
        match validate_zmodem_file_size(entries[v].file_size) {
            Ok(()) => {},
            Err(e) => {
                proof {
                    assert(is_first(entries@, oversized, v as int));
                    lemma_find_first(entries@, oversized, v as int);
                }
                return Err(e);
            },
        }
        v = v + 1;
    }
    proof {
        assert(is_first(entries@, oversized, v as int));
        lemma_find_first(entries@, oversized, v as int);
    }
    let peer = match wait_for_zrinit(io) {
        Ok(p) => p,
        Err(e) => return Err(e),
    };
    let ghost answers = choose|n: nat| io.sent() == old(io).sent() + #[trigger] repeat_seq(zrinit_answer(), n);
    let ghost hs_sent = io.sent();
    let ghost files = stream_files(old(entries)@);
    let ghost pt = (peer.chunk_size as nat, peer.use_crc32, peer.escape_control);
    let ghost mut afters: Seq<Seq<u8>> = Seq::empty();
    let ghost mut taken: Seq<bool> = Seq::empty();
    let ghost mut phases: Seq<(u64, Seq<Seq<u8>>)> = Seq::empty();
    assert(hs_sent + zoffers_sent(files, afters, pt.1, pt.2) =~= hs_sent);
    let mut total: u64 = 0;
    let mut i: usize = 0;
    while i < entries.len()
        invariant
            i <= entries@.len(),
            entries@.len() == old(entries)@.len(),
            zmodem_declared_size(old(entries)@) <= u64::MAX,
            total <= zmodem_declared_size(old(entries)@.subrange(0, i as int)),
            io.pending() <= old(io).pending(),
            first_oversized(old(entries)@) == old(entries)@.len(),
            old(io).received().len() < io.received().len(),
            forall|k: int|
                0 <= k < entries@.len() ==> #[trigger] entries@[k].file_size == old(
                    entries,
                )@[k].file_size,
            forall|k: int|
                0 <= k < entries@.len() ==> #[trigger] entries@[k].file_name == old(entries)@[k].file_name,
            32 <= peer.chunk_size <= ZMODEM_MAX_CHUNK,
            pt == (peer.chunk_size as nat, peer.use_crc32, peer.escape_control),
            files == stream_files(old(entries)@),
            hs_sent == old(io).sent() + repeat_seq(zrinit_answer(), answers),
            afters.len() == i,
            taken.len() == i,
            phases.len() == i,
            io.sent() == hs_sent + zoffers_sent(files, afters, pt.1, pt.2),
            total == taken_size(files, taken),
            forall|k: int|
                0 <= k < i && #[trigger] taken[k] ==> ends_with_phase(
                    afters[k],
                    files[k].1,
                    phases[k].0,
                    phases[k].1,
                    pt,
                ) && ends_with(entries@[k].reader.consumed(), concat_units(phases[k].1)),
        decreases entries@.len() - i,
    {
        proof {
            lemma_zmodem_prefix_bound(old(entries)@, i + 1);
            assert(old(entries)@.subrange(0, i + 1).drop_last() =~= old(entries)@.subrange(
                0,
                i as int,
            ));
        }
        let ghost e_iter = entries@;
        let file_size = entries[i].file_size;
        let header_payload = build_zfile_header(entries[i].file_name.as_str(), file_size);
        match write_zbinary_header(
            io,
            ZFrameType::ZFile,
            zfile_binary_flags(),
            peer.use_crc32,
            peer.escape_control,
        ) {
            Ok(()) => {},
            Err(e) => return Err(e),
        }
        match write_zdata(
            io,
            header_payload.as_slice(),
            ZDataEnd::EndWithAck,
            peer.use_crc32,
            peer.escape_control,
        ) {
            Ok(()) => {},
            Err(e) => return Err(e),
        }
        let ghost offer_end = io.sent();
        assert(offer_end == hs_sent + zoffers_sent(files, afters, pt.1, pt.2) + zfile_offer(
            files[i as int].0,
            files[i as int].1,
            pt.1,
            pt.2,
        ));
        assert(offer_end.subrange(0, offer_end.len() as int) =~= offer_end);
        let ghost total_before = total;
        let ghost mut ph: (u64, Seq<Seq<u8>>) = (0, Seq::empty());
        assert(total_before + file_size <= u64::MAX);
        loop
            invariant_except_break
                total == total_before,
            invariant
                i < entries@.len(),
                entries@.len() == old(entries)@.len(),
                file_size == old(entries)@[i as int].file_size,
                io.pending() <= old(io).pending(),
                first_oversized(old(entries)@) == old(entries)@.len(),
                old(io).received().len() < io.received().len(),
                total_before + file_size <= u64::MAX,
                forall|k: int|
                    0 <= k < entries@.len() ==> #[trigger] entries@[k].file_size == old(
                        entries,
                    )@[k].file_size,
                forall|k: int|
                    0 <= k < entries@.len() ==> #[trigger] entries@[k].file_name == old(entries)@[k].file_name,
                forall|k: int| 0 <= k < entries@.len() && k != i ==> #[trigger] entries@[k] == e_iter[k],
                offer_end.is_prefix_of(io.sent()),
                32 <= peer.chunk_size <= ZMODEM_MAX_CHUNK,
                pt == (peer.chunk_size as nat, peer.use_crc32, peer.escape_control),
            ensures
                i < entries@.len(),
                entries@.len() == old(entries)@.len(),
                io.pending() <= old(io).pending(),
                first_oversized(old(entries)@) == old(entries)@.len(),
                old(io).received().len() < io.received().len(),
                forall|k: int|
                    0 <= k < entries@.len() ==> #[trigger] entries@[k].file_size == old(
                        entries,
                    )@[k].file_size,
                forall|k: int|
                    0 <= k < entries@.len() ==> #[trigger] entries@[k].file_name == old(entries)@[k].file_name,
                forall|k: int| 0 <= k < entries@.len() && k != i ==> #[trigger] entries@[k] == e_iter[k],
                offer_end.is_prefix_of(io.sent()),
                total == total_before || (total == total_before + file_size && ends_with_phase(
                    io.sent().subrange(offer_end.len() as int, io.sent().len() as int),
                    file_size,
                    ph.0,
                    ph.1,
                    pt,
                ) && ends_with(entries@[i as int].reader.consumed(), concat_units(ph.1))),
            decreases io.pending(),
        {
            let response = match read_zmodem_header(io) {
                Ok(h) => h,
                Err(e) => return Err(e),
            };
            let reply = zmodem_offer_reply(response.frame_type, response.position_u32(), file_size);
            if let ZFileReply::SendFrom(start) = reply {
                let mut offset = start;
                loop
                    invariant_except_break
                        total == total_before,
                        offset <= file_size,
                    invariant
                        i < entries@.len(),
                        entries@.len() == old(entries)@.len(),
                        file_size == old(entries)@[i as int].file_size,
                        io.pending() <= old(io).pending(),
                        first_oversized(old(entries)@) == old(entries)@.len(),
                        old(io).received().len() < io.received().len(),
                        total_before + file_size <= u64::MAX,
                        forall|k: int|
                            0 <= k < entries@.len() ==> #[trigger] entries@[k].file_size == old(
                                entries,
                            )@[k].file_size,
                        forall|k: int|
                            0 <= k < entries@.len() ==> #[trigger] entries@[k].file_name == old(entries)@[k].file_name,
                        forall|k: int|
                            0 <= k < entries@.len() && k != i ==> #[trigger] entries@[k] == e_iter[k],
                        offer_end.is_prefix_of(io.sent()),
                        32 <= peer.chunk_size <= ZMODEM_MAX_CHUNK,
                        pt == (peer.chunk_size as nat, peer.use_crc32, peer.escape_control),
                    ensures
                        i < entries@.len(),
                        entries@.len() == old(entries)@.len(),
                        io.pending() <= old(io).pending(),
                        first_oversized(old(entries)@) == old(entries)@.len(),
                        old(io).received().len() < io.received().len(),
                        forall|k: int|
                            0 <= k < entries@.len() ==> #[trigger] entries@[k].file_size == old(
                                entries,
                            )@[k].file_size,
                        forall|k: int|
                            0 <= k < entries@.len() ==> #[trigger] entries@[k].file_name == old(entries)@[k].file_name,
                        forall|k: int|
                            0 <= k < entries@.len() && k != i ==> #[trigger] entries@[k] == e_iter[k],
                        offer_end.is_prefix_of(io.sent()),
                        total == total_before || (total == total_before + file_size && ends_with_phase(
                            io.sent().subrange(offer_end.len() as int, io.sent().len() as int),
                            file_size,
                            ph.0,
                            ph.1,
                            pt,
                        ) && ends_with(entries@[i as int].reader.consumed(), concat_units(ph.1))),
                    decreases io.pending(),
                {
                    let ghost before_call = io.sent();
                    let ghost consumed_before = entries@[i as int].reader.consumed();
                    let outcome = match send_zfile_data_stream(
                        io,
                        &mut entries[i].reader,
                        file_size,
                        offset,
                        peer,
                    ) {
                        Ok(o) => o,
                        Err(e) => return Err(e),
                    };
                    proof {
                        lemma_prefix_trans(offer_end, before_call, io.sent());
                    }
                    match outcome {
                        ZmodemSendDataResult::Complete => {},
                        ZmodemSendDataResult::ResumeAt(next_offset) => {
                            if next_offset > file_size {
                                return Err(ModemTransferError::UnexpectedFrame);
                            }
                            offset = next_offset;
                            continue ;
                        },
                        ZmodemSendDataResult::Skip => {
                            break ;
                        },
                    }
                    proof {
                        let chunks = choose|chunks: Seq<Seq<u8>>|
                            #[trigger] zdata_chunks_ok(chunks, peer.chunk_size as nat)
                                && entries@[i as int].reader.consumed() == consumed_before
                                + concat_units(chunks) && io.sent() == before_call + zdata_phase_sent(
                                offset,
                                chunks,
                                file_size,
                                peer.use_crc32,
                                peer.escape_control,
                            );
                        ph = (offset, chunks);
                        lemma_rest_ends_with(
                            offer_end,
                            before_call,
                            zdata_phase_sent(offset, chunks, file_size, peer.use_crc32, peer.escape_control),
                        );
                        lemma_ends_with_append(consumed_before, concat_units(chunks));
                    }
                    let followup = match read_zmodem_header(io) {
                        Ok(h) => h,
                        Err(e) => return Err(e),
                    };
                    match zmodem_end_reply(followup.frame_type, followup.position_u32(), file_size) {
                        ZFileReply::Taken => {
                            total = total + file_size;
                            break ;
                        },
                        ZFileReply::SendFrom(next_offset) => {
                            offset = next_offset;
                            continue ;
                        },
                        ZFileReply::Skip => {
                            break ;
                        },
                        ZFileReply::Cancelled => {
                            return Err(ModemTransferError::Cancelled);
                        },
                        _ => return Err(ModemTransferError::UnexpectedFrame),
                    }
                }
                break ;
            } else if reply == ZFileReply::Skip {
                break ;
            } else if reply == ZFileReply::Cancelled {
                return Err(ModemTransferError::Cancelled);
            } else if reply == ZFileReply::Unexpected {
                return Err(ModemTransferError::UnexpectedFrame);
            }
        }
        proof {
            let after = io.sent().subrange(offer_end.len() as int, io.sent().len() as int);
            let t = total != total_before;
            let afters1 = afters.push(after);
            let taken1 = taken.push(t);
            let phases1 = phases.push(ph);
            assert(afters1.drop_last() =~= afters);
            assert(taken1.drop_last() =~= taken);
            assert(io.sent() =~= offer_end + after);
            assert(io.sent() =~= hs_sent + zoffers_sent(files, afters1, pt.1, pt.2));
            assert(total == taken_size(files, taken1));
            assert forall|k: int|
                0 <= k < i + 1 && #[trigger] taken1[k] implies ends_with_phase(
                    afters1[k],
                    files[k].1,
                    phases1[k].0,
                    phases1[k].1,
                    pt,
                ) && ends_with(entries@[k].reader.consumed(), concat_units(phases1[k].1)) by {
                if k < i {
                    assert(taken1[k] == taken[k]);
                    assert(afters1[k] == afters[k]);
                    assert(phases1[k] == phases[k]);
                    assert(entries@[k] == e_iter[k]);
                }
            }
            afters = afters1;
            taken = taken1;
            phases = phases1;
        }
        assert(old(entries)@.subrange(0, i + 1).drop_last() =~= old(entries)@.subrange(
            0,
            i as int,
        ));
        i = i + 1;
    }
    assert(old(entries)@.subrange(0, i as int) =~= old(entries)@);
    let ghost before_fin = io.sent();
    match finish_zmodem_send(io) {
        Ok(()) => {},
        Err(e) => return Err(e),
    }
    proof {
        let fins = choose|k: nat|
            1 <= k <= 3 && io.sent() == before_fin + #[trigger] repeat_seq(zfin_header(), k) + seq![
                OVER_AND_OUT,
                OVER_AND_OUT,
            ];
        assert(zmodem_upload_sent(
            files,
            old(io).sent(),
            io.sent(),
            total as nat,
            answers,
            pt,
            afters,
            taken,
            phases,
            fins,
        ));
        assert(readers_supplied(entries@, taken, phases));
        assert(zmodem_stream_uploaded(old(entries)@, entries@, old(io).sent(), io.sent(), total as nat));
    }
    Ok(total)
}


/// The total size of in-memory upload entries.
pub open spec fn zmodem_entry_total(entries: Seq<ZmodemSendEntry>) -> nat
    decreases entries.len(),
{
    if entries.len() == 0 {
        0
    } else {
        zmodem_entry_total(entries.drop_last()) + entries.last().bytes@.len()
    }
}

/// The first in-memory entry too large for 32-bit positions, if any.
pub open spec fn first_oversized_entry(entries: Seq<ZmodemSendEntry>) -> int {
    find_first(entries, |e: ZmodemSendEntry| e.bytes@.len() > ZMODEM_MAX_POSITION)
}

proof fn lemma_stream_entries<R>(a: Seq<ZmodemSendStreamEntry<R>>, b: Seq<ZmodemSendEntry>)
    requires
        a.len() == b.len(),
        forall|k: int| 0 <= k < a.len() ==> #[trigger] a[k].file_size == b[k].bytes@.len(),
    ensures
        zmodem_declared_size(a) == zmodem_entry_total(b),
        first_oversized(a) == first_oversized_entry(b),
    decreases a.len(),
{
    if a.len() > 0 {
        lemma_stream_entries(a.drop_last(), b.drop_last());
        let fa = |e: ZmodemSendStreamEntry<R>| e.file_size > ZMODEM_MAX_POSITION;
        let fb = |e: ZmodemSendEntry| e.bytes@.len() > ZMODEM_MAX_POSITION;
        lemma_find_first_is_first(b, fb);
        let r = find_first(b, fb);
        assert forall|k: int| 0 <= k < r implies !fa(#[trigger] a[k]) by {
            assert(!fb(b[k]));
        }
        if r < a.len() {
            assert(fb(b[r]));
        }
        assert(is_first(a, fa, r));
        lemma_find_first(a, fa, r);
    }
}

/// The name and size of each in-memory upload entry.
pub open spec fn memory_files(entries: Seq<ZmodemSendEntry>) -> Seq<(Seq<char>, u64)> {
    Seq::new(entries.len(), |k: int| (entries[k].file_name@, entries[k].bytes@.len() as u64))
}

/// Some record of handshakes, offers, data phases and ZFIN rounds makes
/// the upload of in-memory `entries` go from `sent0` to `sent1` with `total`
/// bytes taken.
pub open spec fn zmodem_memory_uploaded(
    entries: Seq<ZmodemSendEntry>,
    sent0: Seq<u8>,
    sent1: Seq<u8>,
    total: nat,
) -> bool {
    exists|
        answers: nat,
        peer: (nat, bool, bool),
        afters: Seq<Seq<u8>>,
        taken: Seq<bool>,
        phases: Seq<(u64, Seq<Seq<u8>>)>,
        fins: nat,
    |
        #[trigger] zmodem_upload_sent(
            memory_files(entries),
            sent0,
            sent1,
            total,
            answers,
            peer,
            afters,
            taken,
            phases,
            fins,
        )
}

/// Uploads in-memory files with ZMODEM; returns the number of bytes of the
/// files the receiver took in full.
pub fn send_zmodem<I: ModemIo>(io: &mut I, entries: &[ZmodemSendEntry]) -> (r: Result<
    u64,
    ModemTransferError,
>)
    requires
        zmodem_entry_total(entries@) <= u64::MAX,
    ensures
        final(io).pending() <= old(io).pending(),
        first_oversized_entry(entries@) < entries@.len() ==> (r matches Err(
            ModemTransferError::UnsupportedFileSize(n),
        ) && n == entries@[first_oversized_entry(entries@)].bytes@.len() && *final(io) == *old(
            io,
        )),
        r matches Ok(total) ==> first_oversized_entry(entries@) == entries@.len() && total
            <= zmodem_entry_total(entries@) && ends_with_oo(final(io).sent()),
        r matches Err(e) ==> (first_oversized_entry(entries@) < entries@.len() && *final(io)
            == *old(io)) || channel_error(*old(io), *final(io), e),
        r matches Ok(total) ==> zmodem_memory_uploaded(
            entries@,
            old(io).sent(),
            final(io).sent(),
            total as nat,
        ),
{
    let mut stream_entries: Vec<ZmodemSendStreamEntry<ByteReader>> = Vec::new();
    let mut i: usize = 0;
    while i < entries.len()
        invariant
            i <= entries@.len(),
            stream_entries@.len() == i,
            forall|k: int|
                0 <= k < i ==> #[trigger] stream_entries@[k].file_size == entries@[k].bytes@.len(),
            forall|k: int|
                0 <= k < i ==> #[trigger] stream_entries@[k].file_name == entries@[k].file_name,
        decreases entries.len() - i,
    {
        let mut bytes: Vec<u8> = Vec::new();
        bytes.extend_from_slice(entries[i].bytes.as_slice());
        let file_size = bytes.len() as u64;
        stream_entries.push(
            ZmodemSendStreamEntry {
                file_name: entries[i].file_name.clone(),
                file_size,
                reader: ByteReader::new(bytes),
            },
        );
        i = i + 1;
    }
    proof {
        lemma_stream_entries(stream_entries@, entries@);
        assert(stream_files(stream_entries@) =~= memory_files(entries@));
    }
    let ghost prepared = stream_entries@;
    let r = send_zmodem_stream(io, &mut stream_entries);
    proof {
        let idx = first_oversized_entry(entries@);
        if idx < entries@.len() {
            lemma_find_first_is_first(
                entries@,
                |e: ZmodemSendEntry| e.bytes@.len() > ZMODEM_MAX_POSITION,
            );
            assert(prepared[idx].file_size == entries@[idx].bytes@.len());
        }
        if let Ok(total) = r {
            let (answers, peer, afters, taken, phases, fins) = choose|
                answers: nat,
                peer: (nat, bool, bool),
                afters: Seq<Seq<u8>>,
                taken: Seq<bool>,
                phases: Seq<(u64, Seq<Seq<u8>>)>,
                fins: nat,
            |
                #[trigger] zmodem_upload_sent(
                    stream_files(prepared),
                    old(io).sent(),
                    io.sent(),
                    total as nat,
                    answers,
                    peer,
                    afters,
                    taken,
                    phases,
                    fins,
                ) && readers_supplied(stream_entries@, taken, phases);
            assert(zmodem_upload_sent(
                memory_files(entries@),
                old(io).sent(),
                io.sent(),
                total as nat,
                answers,
                peer,
                afters,
                taken,
                phases,
                fins,
            ));
        }
    }
    r
}


/// One read of the ZMODEM file-data receiver, with the bytes it took: a
/// header, or a data subpacket (CRC-32 or not).
pub ghost enum ZRead {
    Header(Seq<u8>),
    Data(Seq<u8>, bool),
}

pub open spec fn zread_bytes(e: ZRead) -> Seq<u8> {
    match e {
        ZRead::Header(t) => t,
        ZRead::Data(t, _) => t,
    }
}

/// The bytes of the reads `es`, one after the other.
pub open spec fn zreads_bytes(es: Seq<ZRead>) -> Seq<u8>
    decreases es.len(),
{
    if es.len() == 0 {
        Seq::empty()
    } else {
        zreads_bytes(es.drop_last()) + zread_bytes(es.last())
    }
}

/// Where the file-data receiver stands: the bytes kept so far, and the CRC
/// width of the data phase it is in, if it is in one (else it waits for a
/// header).
pub ghost struct ZFileState {
    pub kept: Seq<u8>,
    pub data_crc32: Option<bool>,
}

/// Whether a subpacket ending so keeps the data phase going.
pub open spec fn zdata_continues(end: ZDataEnd) -> bool {
    end == ZDataEnd::Continue || end == ZDataEnd::ContinueWithAck
}

/// The receiver after one more read; `None` when the read ends the transfer
/// in a failure. A ZDATA header at the kept length starts a data phase, one
/// elsewhere (or a ZEOF) is answered and changes nothing; a subpacket in a
/// data phase is kept, and a CRC failure ends the phase.
pub open spec fn zfile_step(s: ZFileState, e: ZRead) -> Option<ZFileState> {
    match e {
        ZRead::Header(t) => if s.data_crc32 is Some {
            None
        } else {
            match header_scan(HeaderScan::Searching, t) {
                HeaderScan::Found(h) => if h.0 == ZFrameType::ZData {
                    if le32_value(h.1) == s.kept.len() {
                        Some(ZFileState { kept: s.kept, data_crc32: Some(h.2 == ZHeaderEncoding::Bin32) })
                    } else {
                        Some(s)
                    }
                } else if h.0 == ZFrameType::ZEof {
                    Some(s)
                } else {
                    None
                },
                _ => None,
            }
        },
        ZRead::Data(t, c) => if s.data_crc32 != Some(c) {
            None
        } else {
            match data_scan(data_start(), t, c, ZMODEM_MAX_CHUNK as nat) {
                DataScan::Found(p, end) => Some(
                    ZFileState {
                        kept: s.kept + p,
                        data_crc32: if zdata_continues(end) {
                            Some(c)
                        } else {
                            None
                        },
                    },
                ),
                DataScan::Failed(err) => if err == ModemTransferError::Protocol(ModemError::InvalidCrc) {
                    Some(ZFileState { kept: s.kept, data_crc32: None })
                } else {
                    None
                },
                _ => Some(ZFileState { kept: s.kept, data_crc32: None }),
            }
        },
    }
}

/// The receiver after the reads `es`, from nothing kept and waiting for a
/// header.
pub open spec fn zfile_run(es: Seq<ZRead>) -> Option<ZFileState>
    decreases es.len(),
{
    if es.len() == 0 {
        Some(ZFileState { kept: Seq::empty(), data_crc32: None })
    } else {
        match zfile_run(es.drop_last()) {
            Some(s) => zfile_step(s, es.last()),
            None => None,
        }
    }
}

/// A hex header at position `n` (which fits 32 bits), as `write_zheader`
/// sends it.
pub open spec fn zheader_at(t: ZFrameType, n: nat) -> Seq<u8> {
    spec_encode_hex_header(t, le32_bytes(n as u32), header_has_xon(t))
}

/// A read of `t` from `input` leaves `rest`.
proof fn lemma_take_rest(input: Seq<u8>, t: Seq<u8>, rest: Seq<u8>)
    requires
        input == t + rest,
    ensures
        input.take(t.len() as int) == t,
        input.subrange(t.len() as int, input.len() as int) == rest,
        t.len() <= input.len(),
{
    assert(input.take(t.len() as int) =~= t);
    assert(input.subrange(t.len() as int, input.len() as int) =~= rest);
}

/// `cur`, what is left of a run after `sent` went out, still gives the run
/// `total` that began after `sent0`.
pub open spec fn zsim_tracks(total: ZFileSim, cur: ZFileSim, sent0: Seq<u8>, sent: Seq<u8>) -> bool {
    &&& total.result == cur.result
    &&& total.kept == cur.kept
    &&& total.left == cur.left
    &&& sent0 + total.sent == sent + cur.sent
}

/// What a run of the file-data receiver sends and keeps after its first
/// ZRPOS.
pub ghost struct ZFileSim {
    pub result: Result<u64, ModemTransferError>,
    pub sent: Seq<u8>,
    pub kept: Seq<u8>,
    /// The input left unread once it ends well.
    pub left: Seq<u8>,
}

/// `sim` after `bytes` were sent first.
pub open spec fn zsim_after(bytes: Seq<u8>, sim: ZFileSim) -> ZFileSim {
    ZFileSim { sent: bytes + sim.sent, ..sim }
}

/// The file-data receiver on a reliable channel whose unread input is
/// `input`, from state `s`, with a sink that does not fail; `rf` is the
/// channel's read error. Headers: a ZDATA at the kept length starts a data
/// phase, one elsewhere is answered with ZRPOS; a ZEOF at the kept length
/// (and at the announced size) ends with ZRINIT, one elsewhere is answered
/// with ZRPOS; ZFIN is unexpected, ZCAN and ZABORT cancel, anything else is
/// unexpected. Subpackets are kept while they fit the announced size, the
/// ones that ask for it acknowledged with ZACK at the new length; a CRC
/// failure is answered with ZRPOS and ends the phase.
pub open spec fn zfile_sim(
    input: Seq<u8>,
    s: ZFileState,
    file_size: Option<u64>,
    rf: ModemTransferError,
) -> ZFileSim
    decreases input.len(),
{
    let k = s.kept.len();
    let fail = |e: ModemTransferError| ZFileSim { result: Err(e), sent: Seq::empty(), kept: s.kept, left: input };
    match s.data_crc32 {
        None => match header_take(HeaderScan::Searching, input) {
            None => fail(rf),
            Some(n) => if n == 0 || n > input.len() {
                fail(rf)
            } else {
                let rest = input.subrange(n as int, input.len() as int);
                match header_scan(HeaderScan::Searching, input.take(n as int)) {
                    HeaderScan::Found(h) => if h.0 == ZFrameType::ZData {
                        if le32_value(h.1) != k {
                            if k > ZMODEM_MAX_POSITION {
                                fail(ModemTransferError::UnsupportedFileSize(k as u64))
                            } else {
                                zsim_after(
                                    zheader_at(ZFrameType::ZRpos, k),
                                    zfile_sim(rest, s, file_size, rf),
                                )
                            }
                        } else {
                            zfile_sim(
                                rest,
                                ZFileState { kept: s.kept, data_crc32: Some(h.2 == ZHeaderEncoding::Bin32) },
                                file_size,
                                rf,
                            )
                        }
                    } else if h.0 == ZFrameType::ZEof {
                        if le32_value(h.1) == k && (file_size matches Some(m) ==> m == k) {
                            ZFileSim { result: Ok(k as u64), sent: zrinit_answer(), kept: s.kept, left: rest }
                        } else if k > ZMODEM_MAX_POSITION {
                            fail(ModemTransferError::UnsupportedFileSize(k as u64))
                        } else {
                            zsim_after(zheader_at(ZFrameType::ZRpos, k), zfile_sim(rest, s, file_size, rf))
                        }
                    } else if h.0 == ZFrameType::ZFin {
                        fail(ModemTransferError::UnexpectedFrame)
                    } else if h.0 == ZFrameType::ZAbort || h.0 == ZFrameType::ZCan {
                        fail(ModemTransferError::Cancelled)
                    } else {
                        fail(ModemTransferError::UnexpectedFrame)
                    },
                    HeaderScan::Failed(e) => fail(e),
                    _ => fail(rf),
                }
            },
        },
        Some(c) => match data_take(data_start(), input, c, ZMODEM_MAX_CHUNK as nat) {
            None => fail(rf),
            Some(n) => if n == 0 || n > input.len() {
                fail(rf)
            } else {
                let rest = input.subrange(n as int, input.len() as int);
                match data_scan(data_start(), input.take(n as int), c, ZMODEM_MAX_CHUNK as nat) {
                    DataScan::Found(p, end) => {
                        let next = k + p.len();
                        if next > u64::MAX {
                            fail(ModemTransferError::UnexpectedFrame)
                        } else if file_size matches Some(m) && next > m {
                            fail(ModemTransferError::UnexpectedFrame)
                        } else {
                            let s2 = ZFileState {
                                kept: s.kept + p,
                                data_crc32: if zdata_continues(end) {
                                    Some(c)
                                } else {
                                    None
                                },
                            };
                            if end == ZDataEnd::ContinueWithAck || end == ZDataEnd::EndWithAck {
                                if next > ZMODEM_MAX_POSITION {
                                    ZFileSim {
                                        result: Err(ModemTransferError::UnsupportedFileSize(next as u64)),
                                        sent: Seq::empty(),
                                        kept: s2.kept,
                                        left: rest,
                                    }
                                } else {
                                    zsim_after(
                                        zheader_at(ZFrameType::ZAck, next),
                                        zfile_sim(rest, s2, file_size, rf),
                                    )
                                }
                            } else {
                                zfile_sim(rest, s2, file_size, rf)
                            }
                        }
                    },
                    DataScan::Failed(e) => if e == ModemTransferError::Protocol(ModemError::InvalidCrc) {
                        if k > ZMODEM_MAX_POSITION {
                            fail(ModemTransferError::UnsupportedFileSize(k as u64))
                        } else {
                            zsim_after(
                                zheader_at(ZFrameType::ZRpos, k),
                                zfile_sim(rest, ZFileState { kept: s.kept, data_crc32: None }, file_size, rf),
                            )
                        }
                    } else {
                        fail(e)
                    },
                    _ => fail(rf),
                }
            },
        },
    }
}

/// The file-data receiver from its start: nothing kept, waiting for a
/// header.
#[verifier::opaque]
pub open spec fn zfile_receive(input: Seq<u8>, file_size: Option<u64>, rf: ModemTransferError) -> ZFileSim {
    zfile_sim(input, ZFileState { kept: Seq::empty(), data_crc32: None }, file_size, rf)
}

/// The file-data receiver from its start is `zfile_sim` from nothing kept.
proof fn lemma_zfile_receive(input: Seq<u8>, file_size: Option<u64>, rf: ModemTransferError)
    ensures
        zfile_receive(input, file_size, rf) == zfile_sim(
            input,
            ZFileState { kept: Seq::empty(), data_crc32: None },
            file_size,
            rf,
        ),
{
    reveal(zfile_receive);
}

/// The reads `es` end with a ZEOF header at the length kept, which is the
/// announced size when there is one.
pub open spec fn zfile_finished(es: Seq<ZRead>, file_size: Option<u64>) -> bool {
    &&& es.len() > 0
    &&& zfile_run(es) matches Some(s)
    &&& s.data_crc32 is None
    &&& es.last() matches ZRead::Header(t)
    &&& header_scan(HeaderScan::Searching, t) matches HeaderScan::Found(h)
    &&& h.0 == ZFrameType::ZEof
    &&& le32_value(h.1) == s.kept.len()
    &&& file_size matches Some(n) ==> n == s.kept.len()
}

/// Data subpackets of `payloads` that keep the data phase going and ask for
/// an acknowledgement, as the receiver reads them (CRC-32).
pub open spec fn continued_data_reads(payloads: Seq<Seq<u8>>, escape_control: bool) -> Seq<ZRead> {
    Seq::new(
        payloads.len(),
        |i: int|
            ZRead::Data(
                spec_encode_zdata(payloads[i], ZDataEnd::ContinueWithAck, true, escape_control),
                true,
            ),
    )
}

/// The reads of a data phase as `send_zfile_data_stream` lays it out for a
/// CRC-32 peer: a binary ZDATA header at position 0, the payloads as
/// subpackets (the last one ending the frame), and a hex ZEOF header at the
/// total length.
pub open spec fn data_phase_reads(payloads: Seq<Seq<u8>>, escape_control: bool) -> Seq<ZRead> {
    let total = concat_units(payloads).len();
    seq![ZRead::Header(spec_encode_bin32_header(ZFrameType::ZData, le32_bytes(0), escape_control))]
        + continued_data_reads(payloads.drop_last(), escape_control) + seq![
        ZRead::Data(
            spec_encode_zdata(payloads.last(), ZDataEnd::End, true, escape_control),
            true,
        ),
        ZRead::Header(
            spec_encode_hex_header(ZFrameType::ZEof, le32_bytes(total as u32), true),
        ),
    ]
}

proof fn lemma_zfile_run_push(es: Seq<ZRead>, e: ZRead)
    ensures
        zfile_run(es.push(e)) == match zfile_run(es) {
            Some(s) => zfile_step(s, e),
            None => None,
        },
{
    assert(es.push(e).drop_last() =~= es);
}

proof fn lemma_continued_data(payloads: Seq<Seq<u8>>, escape_control: bool)
    requires
        forall|i: int| 0 <= i < payloads.len() ==> #[trigger] payloads[i].len() <= ZMODEM_MAX_CHUNK,
    ensures
        zfile_run(
            seq![ZRead::Header(spec_encode_bin32_header(ZFrameType::ZData, le32_bytes(0), escape_control))]
                + continued_data_reads(payloads, escape_control),
        ) == Some(ZFileState { kept: concat_units(payloads), data_crc32: Some(true) }),
    decreases payloads.len(),
{
    let h = ZRead::Header(spec_encode_bin32_header(ZFrameType::ZData, le32_bytes(0), escape_control));
    if payloads.len() == 0 {
        lemma_bin32_header_read_back(ZFrameType::ZData, le32_bytes(0), escape_control);
        lemma_le32_round_trip(0);
        assert(seq![h] + continued_data_reads(payloads, escape_control) =~= Seq::<ZRead>::empty().push(h));
        lemma_zfile_run_push(Seq::empty(), h);
    } else {
        let prev = payloads.drop_last();
        lemma_continued_data(prev, escape_control);
        let last = payloads.last();
        let e = ZRead::Data(
            spec_encode_zdata(last, ZDataEnd::ContinueWithAck, true, escape_control),
            true,
        );
        assert(seq![h] + continued_data_reads(payloads, escape_control) =~= (seq![h]
            + continued_data_reads(prev, escape_control)).push(e));
        lemma_zfile_run_push(seq![h] + continued_data_reads(prev, escape_control), e);
        assert(last.len() <= ZMODEM_MAX_CHUNK);
        lemma_zdata_read_back(
            last,
            ZDataEnd::ContinueWithAck,
            true,
            escape_control,
            ZMODEM_MAX_CHUNK as nat,
        );
    }
}

/// A data phase as the sender lays it out for a CRC-32 peer (a ZDATA header
/// at 0, each payload as a subpacket, the last one ending the frame, and a
/// ZEOF at the total length) leaves the file-data receiver with exactly the
/// payloads, one after the other, and finishes the file.
pub proof fn lemma_zmodem_data_phase_read_back(payloads: Seq<Seq<u8>>, escape_control: bool)
    requires
        payloads.len() > 0,
        forall|i: int| 0 <= i < payloads.len() ==> #[trigger] payloads[i].len() <= ZMODEM_MAX_CHUNK,
        concat_units(payloads).len() <= ZMODEM_MAX_POSITION,
    ensures
        zfile_run(data_phase_reads(payloads, escape_control)) == Some(
            ZFileState { kept: concat_units(payloads), data_crc32: None },
        ),
        zfile_finished(data_phase_reads(payloads, escape_control), Some(concat_units(payloads).len() as u64)),
{
    let prev = payloads.drop_last();
    let last = payloads.last();
    let total = concat_units(payloads).len();
    let h = ZRead::Header(spec_encode_bin32_header(ZFrameType::ZData, le32_bytes(0), escape_control));
    assert forall|i: int| 0 <= i < prev.len() implies #[trigger] prev[i].len() <= ZMODEM_MAX_CHUNK by {
        assert(prev[i] == payloads[i]);
    }
    lemma_continued_data(prev, escape_control);
    let middle = seq![h] + continued_data_reads(prev, escape_control);
    let d = ZRead::Data(spec_encode_zdata(last, ZDataEnd::End, true, escape_control), true);
    let eof = ZRead::Header(spec_encode_hex_header(ZFrameType::ZEof, le32_bytes(total as u32), true));
    assert(data_phase_reads(payloads, escape_control) =~= middle.push(d).push(eof));
    lemma_zfile_run_push(middle, d);
    assert(payloads[payloads.len() - 1] == last);
    lemma_zdata_read_back(last, ZDataEnd::End, true, escape_control, ZMODEM_MAX_CHUNK as nat);
    assert(concat_units(payloads) == concat_units(prev) + last);
    lemma_zfile_run_push(middle.push(d), eof);
    lemma_hex_header_read_back(ZFrameType::ZEof, le32_bytes(total as u32), true);
    lemma_le32_round_trip(total as u32);
}

proof fn lemma_continued_bytes(h: ZRead, payloads: Seq<Seq<u8>>, escape_control: bool)
    ensures
        zreads_bytes(seq![h] + continued_data_reads(payloads, escape_control)) == zread_bytes(h)
            + zdata_subpackets(payloads, true, escape_control, false),
    decreases payloads.len(),
{
    let u = seq![h] + continued_data_reads(payloads, escape_control);
    if payloads.len() == 0 {
        assert(u.len() == 1);
        assert(u.last() == h);
        assert(u.drop_last() =~= Seq::<ZRead>::empty());
        assert(zreads_bytes(u) == zreads_bytes(u.drop_last()) + zread_bytes(h));
        assert(zreads_bytes(Seq::<ZRead>::empty()) == Seq::<u8>::empty());
        assert(zread_bytes(h) + Seq::<u8>::empty() =~= zread_bytes(h));
        assert(Seq::<u8>::empty() + zread_bytes(h) =~= zread_bytes(h));
    } else {
        let prev = payloads.drop_last();
        lemma_continued_bytes(h, prev, escape_control);
        let e = ZRead::Data(
            spec_encode_zdata(payloads.last(), ZDataEnd::ContinueWithAck, true, escape_control),
            true,
        );
        let a = seq![h] + continued_data_reads(prev, escape_control);
        assert(u =~= a.push(e));
        assert(u.drop_last() =~= a);
        assert(u.last() == e);
        assert(zreads_bytes(u) == zreads_bytes(a) + zread_bytes(e));
        assert(zdata_subpackets(payloads, true, escape_control, false) == zdata_subpackets(
            prev,
            true,
            escape_control,
            false,
        ) + zread_bytes(e));
        assert(zread_bytes(h) + zdata_subpackets(prev, true, escape_control, false) + zread_bytes(e)
            =~= zread_bytes(h) + (zdata_subpackets(prev, true, escape_control, false) + zread_bytes(
            e,
        )));
    }
}

/// What `send_zfile_data_stream` sends for a whole file to a CRC-32 peer is
/// exactly the reads of the file-data receiver's data phase, and the
/// receiver keeps the chunks the sender read, one after the other.
pub proof fn lemma_zmodem_data_phase_send_receive(chunks: Seq<Seq<u8>>, escape_control: bool)
    requires
        chunks.len() > 0,
        zdata_chunks_ok(chunks, ZMODEM_MAX_CHUNK as nat),
        concat_units(chunks).len() <= ZMODEM_MAX_POSITION,
    ensures
        zdata_phase_sent(0, chunks, concat_units(chunks).len() as u64, true, escape_control)
            == zreads_bytes(data_phase_reads(chunks, escape_control)),
        zfile_run(data_phase_reads(chunks, escape_control)) == Some(
            ZFileState { kept: concat_units(chunks), data_crc32: None },
        ),
        zfile_finished(data_phase_reads(chunks, escape_control), Some(concat_units(chunks).len() as u64)),
{
    assert forall|i: int| 0 <= i < chunks.len() implies #[trigger] chunks[i].len() <= ZMODEM_MAX_CHUNK by {
        assert(0 < chunks[i].len() <= ZMODEM_MAX_CHUNK as nat);
    }
    lemma_zmodem_data_phase_read_back(chunks, escape_control);
    let prev = chunks.drop_last();
    let total = concat_units(chunks).len();
    let h = ZRead::Header(spec_encode_bin32_header(ZFrameType::ZData, le32_bytes(0), escape_control));
    lemma_continued_bytes(h, prev, escape_control);
    let middle = seq![h] + continued_data_reads(prev, escape_control);
    let d = ZRead::Data(spec_encode_zdata(chunks.last(), ZDataEnd::End, true, escape_control), true);
    let eof = ZRead::Header(spec_encode_hex_header(ZFrameType::ZEof, le32_bytes(total as u32), true));
    assert(data_phase_reads(chunks, escape_control) =~= middle.push(d).push(eof));
    assert(middle.push(d).push(eof).drop_last() =~= middle.push(d));
    assert(middle.push(d).drop_last() =~= middle);
    assert((total as u64) as u32 == total as u32);
    let m = middle.push(d);
    assert(zreads_bytes(m.push(eof)) == zreads_bytes(m) + zread_bytes(eof));
    assert(m.push(eof).last() == eof);
    assert(m.last() == d);
    assert(zreads_bytes(m) == zreads_bytes(middle) + zread_bytes(d));
    assert(zdata_subpackets(chunks, true, escape_control, true) == zdata_subpackets(
        prev,
        true,
        escape_control,
        false,
    ) + zread_bytes(d));
    assert(zbinary_header(ZFrameType::ZData, le32_bytes(0u64 as u32), true, escape_control)
        == zread_bytes(h));
    assert(zdata_phase_sent(0, chunks, total as u64, true, escape_control) =~= zreads_bytes(
        m.push(eof),
    ));
}

/// Receives the data phase of one file: asks for position zero, then takes
/// ZDATA subpackets in order (asking again from the committed offset after a
/// CRC error or a position mismatch) until a ZEOF at the offset reached, which
/// must equal the announced size when there is one. Returns the bytes taken.
#[verifier::rlimit(100)]
#[verifier::spinoff_prover]
pub fn receive_zmodem_file_data<I: ModemIo, W: ModemWrite>(
    io: &mut I,
    sink: &mut W,
    file_size: Option<u64>,
) -> (r: Result<u64, ModemTransferError>)
    requires
        file_size matches Some(n) ==> n <= ZMODEM_MAX_POSITION,
    ensures
        final(io).pending() <= old(io).pending(),
        final(sink).file_starts() == old(sink).file_starts(),
        final(sink).announced() == old(sink).announced(),
        final(sink).written().len() >= old(sink).written().len(),
        final(sink).written().subrange(0, old(sink).written().len() as int) == old(sink).written(),
        r matches Ok(n) ==> final(sink).written().len() == old(sink).written().len() + n && (
        file_size matches Some(s) ==> n == s),
        r is Ok ==> exists|es: Seq<ZRead>|
            #[trigger] zfile_finished(es, file_size) && final(io).received() == old(io).received()
                + zreads_bytes(es) && final(sink).written() == old(sink).written() + zfile_run(
                es,
            )->0.kept,
        old(io).received().len() <= final(io).received().len(),
        final(io).incoming().len() <= old(io).incoming().len(),
        r matches Err(e) ==> channel_error(*old(io), *final(io), e) || final(sink).failure() == Some(e),
        old(io).reliable() && old(sink).failure() is None && old(io).read_failure()
            != ModemTransferError::Protocol(ModemError::InvalidCrc) ==> ({
            let sim = zfile_sim(
                old(io).incoming(),
                ZFileState { kept: Seq::empty(), data_crc32: None },
                file_size,
                old(io).read_failure(),
            );
            &&& r == sim.result
            &&& final(io).sent() == old(io).sent() + zheader_at(ZFrameType::ZRpos, 0) + sim.sent
            &&& r is Ok ==> final(sink).written() == old(sink).written() + sim.kept
            &&& r is Ok ==> final(io).incoming() == sim.left
            &&& final(io).reliable() && final(sink).failure() is None && final(io).read_failure()
                == old(io).read_failure()
        }),
{
    let ghost rel = old(io).reliable() && old(sink).failure() is None && old(io).read_failure()
        != ModemTransferError::Protocol(ModemError::InvalidCrc);
    let ghost rf = old(io).read_failure();
    let ghost total = zfile_sim(
        old(io).incoming(),
        ZFileState { kept: Seq::empty(), data_crc32: None },
        file_size,
        rf,
    );

    let ghost w0 = sink.written();
    let ghost mut events: Seq<ZRead> = Seq::empty();
    let mut received_offset: u64 = 0;
    let zero = match position_header_checked(received_offset) {
        Ok(p) => p,
        Err(e) => return Err(e),
    };
    match write_zheader(io, ZFrameType::ZRpos, zero) {
        Ok(()) => {},
        Err(e) => return Err(e),
    }
    assert(old(io).received() + Seq::<u8>::empty() =~= old(io).received());
    assert(w0 + Seq::<u8>::empty() =~= w0);
    let ghost sent0 = old(io).sent() + zheader_at(ZFrameType::ZRpos, 0);
    assert(zfile_run(events) == Some(ZFileState { kept: Seq::empty(), data_crc32: None }));
    loop
        invariant
            io.pending() <= old(io).pending(),
            w0 == old(sink).written(),
            sink.file_starts() == old(sink).file_starts(),
            sink.announced() == old(sink).announced(),
            sink.written().len() == w0.len() + received_offset,
            sink.written().subrange(0, w0.len() as int) == w0,
            file_size matches Some(n) ==> received_offset <= n && n <= ZMODEM_MAX_POSITION,
            io.received() == old(io).received() + zreads_bytes(events),
            zfile_run(events) matches Some(st) && st.data_crc32 is None && sink.written() == w0
                + st.kept,
            rel == (old(io).reliable() && old(sink).failure() is None && old(io).read_failure()
                != ModemTransferError::Protocol(ModemError::InvalidCrc)),
            rf == old(io).read_failure(),
            io.incoming().len() <= old(io).incoming().len(),
            total == zfile_sim(old(io).incoming(), ZFileState { kept: Seq::empty(), data_crc32: None }, file_size, rf),
            sent0 == old(io).sent() + zheader_at(ZFrameType::ZRpos, 0),
            rel ==> io.reliable() && sink.failure() is None && io.read_failure() == rf
                && zsim_tracks(total, zfile_sim(io.incoming(), zfile_run(events)->0, file_size, rf), sent0, io.sent()),
        decreases io.pending(),
    {
        let ghost iteration_start = io.pending();
        let ghost before = *io;
        let ghost prev = events;
        let ghost st0 = zfile_run(events)->0;
        let ghost cur0 = zfile_sim(io.incoming(), st0, file_size, rf);
        let data_header = match read_zmodem_header(io) {
            Ok(h) => h,
            Err(e) => {
                proof {
                    if rel {
                        let t = bytes_read(before, *io);
                        lemma_take_rest(before.incoming(), t, io.incoming());
                    }
                }
                return Err(e);
            },
        };
        proof {
            let t = bytes_read(before, *io);
            assert(io.received() =~= before.received() + t);
            events = events.push(ZRead::Header(t));
            assert(events.drop_last() =~= prev);
            assert(io.received() =~= old(io).received() + zreads_bytes(events));
            if rel {
                lemma_take_rest(before.incoming(), t, io.incoming());
                assert(header_scan(HeaderScan::Searching, t) == HeaderScan::Found(
                    (data_header.frame_type, data_header.position@, data_header.encoding),
                ));
            }
        }
        if data_header.frame_type == ZFrameType::ZData {
            if data_header.position_u32() as u64 != received_offset {
                let p = match position_header_checked(received_offset) {
                    Ok(p) => p,
                    Err(e) => return Err(e),
                };
                let ghost sent_before = io.sent();
                match write_zheader(io, ZFrameType::ZRpos, p) {
                    Ok(()) => {},
                    Err(e) => return Err(e),
                }
                proof {
                    if rel {
                        assert(zfile_run(events)->0 == st0);
                        let k = st0.kept.len();
                        assert(io.sent() == sent_before + zheader_at(ZFrameType::ZRpos, k));
                        let cur = zfile_sim(io.incoming(), st0, file_size, rf);
                        assert(cur0.sent == zheader_at(ZFrameType::ZRpos, k) + cur.sent);
                        assert(sent0 + total.sent =~= io.sent() + cur.sent);
                    }
                }
                continue ;
            }
            let data_uses_crc32 = data_header.encoding == ZHeaderEncoding::Bin32;
            loop
                invariant_except_break
                    zfile_run(events) matches Some(st) && st.data_crc32 == Some(data_uses_crc32)
                        && sink.written() == w0 + st.kept,
                invariant
                    io.pending() < iteration_start,
                    iteration_start <= old(io).pending(),
                    w0 == old(sink).written(),
                    sink.file_starts() == old(sink).file_starts(),
                    sink.announced() == old(sink).announced(),
                    sink.written().len() == w0.len() + received_offset,
                    sink.written().subrange(0, w0.len() as int) == w0,
                    file_size matches Some(n) ==> received_offset <= n && n <= ZMODEM_MAX_POSITION,
                    io.received() == old(io).received() + zreads_bytes(events),
                    rel == (old(io).reliable() && old(sink).failure() is None && old(io).read_failure()
                != ModemTransferError::Protocol(ModemError::InvalidCrc)),
                    rf == old(io).read_failure(),
                    io.incoming().len() <= old(io).incoming().len(),
                    total == zfile_sim(old(io).incoming(), ZFileState { kept: Seq::empty(), data_crc32: None }, file_size, rf),
                    sent0 == old(io).sent() + zheader_at(ZFrameType::ZRpos, 0),
                    rel ==> io.reliable() && sink.failure() is None && io.read_failure() == rf
                    && zsim_tracks(total, zfile_sim(io.incoming(), zfile_run(events)->0, file_size, rf), sent0, io.sent()),
                ensures
                    io.incoming().len() <= old(io).incoming().len(),
                    zfile_run(events) matches Some(st) && st.data_crc32 is None && sink.written()
                        == w0 + st.kept,
                    rel ==> io.reliable() && sink.failure() is None && io.read_failure() == rf
                        && zsim_tracks(total, zfile_sim(io.incoming(), zfile_run(events)->0, file_size, rf), sent0, io.sent()),
                decreases io.pending(),
            {
                let ghost before_data = *io;
                let ghost prev_data = events;
                let ghost st1 = zfile_run(events)->0;
                let ghost cur1 = zfile_sim(io.incoming(), st1, file_size, rf);
                let frame = match read_zmodem_data(io, data_uses_crc32, ZMODEM_MAX_CHUNK) {
                    Ok(f) => f,
                    Err(ModemTransferError::Protocol(ModemError::InvalidCrc)) => {
                        proof {
                            let t = bytes_read(before_data, *io);
                            assert(io.received() =~= before_data.received() + t);
                            events = events.push(ZRead::Data(t, data_uses_crc32));
                            assert(events.drop_last() =~= prev_data);
                            assert(io.received() =~= old(io).received() + zreads_bytes(events));
                            if rel {
                                lemma_take_rest(before_data.incoming(), t, io.incoming());
                            }
                        }
                        let p = match position_header_checked(received_offset) {
                            Ok(p) => p,
                            Err(e) => return Err(e),
                        };
                        let ghost sent_before = io.sent();
                        match write_zheader(io, ZFrameType::ZRpos, p) {
                            Ok(()) => {},
                            Err(e) => return Err(e),
                        }
                        proof {
                            if rel {
                                let k = st1.kept.len();
                                let st2 = ZFileState { kept: st1.kept, data_crc32: None };
                                assert(zfile_run(events)->0 == st2);
                                assert(io.sent() == sent_before + zheader_at(ZFrameType::ZRpos, k));
                                let cur = zfile_sim(io.incoming(), st2, file_size, rf);
                                assert(cur1.sent == zheader_at(ZFrameType::ZRpos, k) + cur.sent);
                                assert(sent0 + total.sent =~= io.sent() + cur.sent);
                            }
                        }
                        break ;
                    },
                    Err(e) => {
                        proof {
                            if rel {
                                let t = bytes_read(before_data, *io);
                                lemma_take_rest(before_data.incoming(), t, io.incoming());
                            }
                        }
                        return Err(e);
                    },
                };
                proof {
                    let t = bytes_read(before_data, *io);
                    assert(io.received() =~= before_data.received() + t);
                    events = events.push(ZRead::Data(t, data_uses_crc32));
                    assert(events.drop_last() =~= prev_data);
                    assert(io.received() =~= old(io).received() + zreads_bytes(events));
                    if rel {
                        lemma_take_rest(before_data.incoming(), t, io.incoming());
                    }
                }
                let ghost st2 = zfile_run(events)->0;
                let ghost cur2 = zfile_sim(io.incoming(), st2, file_size, rf);
                let next_offset = match received_offset.checked_add(frame.payload.len() as u64) {
                    Some(n) => n,
                    None => return Err(ModemTransferError::UnexpectedFrame),
                };
                match file_size {
                    Some(n) => {
                        if next_offset > n {
                            return Err(ModemTransferError::UnexpectedFrame);
                        }
                    },
                    None => {},
                }
                let ghost before = sink.written();
                match sink.write_all(frame.payload.as_slice()) {
                    Ok(()) => {},
                    Err(e) => return Err(e),
                }
                assert(sink.written().subrange(0, w0.len() as int) =~= before.subrange(
                    0,
                    w0.len() as int,
                ));
                assert(sink.written() =~= w0 + zfile_run(events)->0.kept);
                received_offset = next_offset;
                proof {
                    if rel {
                        assert(st2.kept.len() == next_offset);
                    }
                }
                match frame.end {
                    ZDataEnd::Continue => {
                        proof {
                            if rel {
                                assert(cur1 == cur2);
                            }
                        }
                    },
                    ZDataEnd::ContinueWithAck => {
                        let p = match position_header_checked(received_offset) {
                            Ok(p) => p,
                            Err(e) => return Err(e),
                        };
                        let ghost sent_before = io.sent();
                        match write_zheader(io, ZFrameType::ZAck, p) {
                            Ok(()) => {},
                            Err(e) => return Err(e),
                        }
                        proof {
                            if rel {
                                assert(io.sent() == sent_before + zheader_at(ZFrameType::ZAck, next_offset as nat));
                                assert(cur1.sent == zheader_at(ZFrameType::ZAck, next_offset as nat) + cur2.sent);
                                assert(sent0 + total.sent =~= io.sent() + cur2.sent);
                            }
                        }
                    },
                    ZDataEnd::End => {
                        proof {
                            if rel {
                                assert(cur1 == cur2);
                            }
                        }
                        break ;
                    },
                    ZDataEnd::EndWithAck => {
                        let p = match position_header_checked(received_offset) {
                            Ok(p) => p,
                            Err(e) => return Err(e),
                        };
                        let ghost sent_before = io.sent();
                        match write_zheader(io, ZFrameType::ZAck, p) {
                            Ok(()) => {},
                            Err(e) => return Err(e),
                        }
                        proof {
                            if rel {
                                assert(io.sent() == sent_before + zheader_at(ZFrameType::ZAck, next_offset as nat));
                                assert(cur1.sent == zheader_at(ZFrameType::ZAck, next_offset as nat) + cur2.sent);
                                assert(sent0 + total.sent =~= io.sent() + cur2.sent);
                            }
                        }
                        break ;
                    },
                }
            }
        } else if data_header.frame_type == ZFrameType::ZEof {
            let declared_size_matches = match file_size {
                None => true,
                Some(n) => n == received_offset,
            };
            if data_header.position_u32() as u64 != received_offset || !declared_size_matches {
                let p = match position_header_checked(received_offset) {
                    Ok(p) => p,
                    Err(e) => return Err(e),
                };
                let ghost sent_before = io.sent();
                match write_zheader(io, ZFrameType::ZRpos, p) {
                    Ok(()) => {},
                    Err(e) => return Err(e),
                }
                proof {
                    if rel {
                        assert(zfile_run(events)->0 == st0);
                        let k = st0.kept.len();
                        assert(io.sent() == sent_before + zheader_at(ZFrameType::ZRpos, k));
                        let cur = zfile_sim(io.incoming(), st0, file_size, rf);
                        assert(cur0.sent == zheader_at(ZFrameType::ZRpos, k) + cur.sent);
                        assert(sent0 + total.sent =~= io.sent() + cur.sent);
                    }
                }
                continue ;
            }
            match sink.flush() {
                Ok(()) => {},
                Err(e) => return Err(e),
            }
            match send_zrinit(io) {
                Ok(()) => {},
                Err(e) => return Err(e),
            }
            assert(zfile_finished(events, file_size));
            return Ok(received_offset);
        } else if data_header.frame_type == ZFrameType::ZFin {
            return Err(ModemTransferError::UnexpectedFrame);
        } else if data_header.frame_type == ZFrameType::ZAbort || data_header.frame_type
            == ZFrameType::ZCan {
            return Err(ModemTransferError::Cancelled);
        } else {
            return Err(ModemTransferError::UnexpectedFrame);
        }
    }
}


/// The sizes the received ZMODEM headers announced.
pub open spec fn zheader_sizes(hs: Seq<ZmodemFileHeader>) -> Seq<Option<u64>> {
    Seq::new(hs.len(), |k: int| hs[k].file_size)
}

/// Starts within the written bytes, in order.
pub open spec fn starts_well_formed(written: Seq<u8>, starts: Seq<nat>) -> bool {
    &&& forall|k: int| 0 <= k < starts.len() ==> #[trigger] starts[k] <= written.len()
    &&& forall|k: int| 0 <= k < starts.len() - 1 ==> #[trigger] starts[k] <= starts[k + 1]
}

/// Each received file holds what its file-data run kept, the run having
/// been read, whole and in order with the others, at its offset in
/// `received`.
#[verifier::opaque]
pub open spec fn files_from_runs(
    written: Seq<u8>,
    starts: Seq<nat>,
    base: int,
    received: Seq<u8>,
    runs: Seq<Seq<ZRead>>,
    offsets: Seq<nat>,
    sizes: Seq<Option<u64>>,
) -> bool {
    &&& runs.len() == sizes.len()
    &&& offsets.len() == runs.len()
    &&& forall|k: int|
        0 <= k < runs.len() ==> {
            &&& zfile_finished(#[trigger] runs[k], sizes[k])
            &&& offsets[k] + zreads_bytes(runs[k]).len() <= received.len()
            &&& received.subrange(
                offsets[k] as int,
                (offsets[k] + zreads_bytes(runs[k]).len()) as int,
            ) == zreads_bytes(runs[k])
            &&& file_content(written, starts, base + k) == zfile_run(runs[k])->0.kept
        }
    &&& forall|k: int|
        0 <= k < runs.len() - 1 ==> #[trigger] offsets[k] + zreads_bytes(runs[k]).len()
            <= offsets[k + 1]
}

/// Appending a file, and more received bytes, keeps what earlier files hold
/// and where their runs were read.
proof fn lemma_runs_extend(
    w0: Seq<u8>,
    s0: Seq<nat>,
    w1: Seq<u8>,
    s1: Seq<nat>,
    base: int,
    r0: Seq<u8>,
    r1: Seq<u8>,
    runs: Seq<Seq<ZRead>>,
    offsets: Seq<nat>,
    sizes: Seq<Option<u64>>,
)
    requires
        0 <= base,
        s0.len() == base + sizes.len(),
        starts_well_formed(w0, s0),
        w1.len() >= w0.len(),
        w1.subrange(0, w0.len() as int) == w0,
        s1 == s0.push(w0.len()),
        r1.len() >= r0.len(),
        r1.subrange(0, r0.len() as int) == r0,
        files_from_runs(w0, s0, base, r0, runs, offsets, sizes),
    ensures
        files_from_runs(w1, s1, base, r1, runs, offsets, sizes),
{
    reveal(files_from_runs);
    {
        assert forall|k: int| 0 <= k < runs.len() implies {
            &&& zfile_finished(#[trigger] runs[k], sizes[k])
            &&& offsets[k] + zreads_bytes(runs[k]).len() <= r1.len()
            &&& r1.subrange(
                offsets[k] as int,
                (offsets[k] + zreads_bytes(runs[k]).len()) as int,
            ) == zreads_bytes(runs[k])
            &&& file_content(w1, s1, base + k) == zfile_run(runs[k])->0.kept
        } by {
            let a = offsets[k] as int;
            let b = (offsets[k] + zreads_bytes(runs[k]).len()) as int;
            assert(r1.subrange(a, b) =~= r0.subrange(a, b)) by {
                assert forall|j: int| 0 <= j < b - a implies r1.subrange(a, b)[j] == r0.subrange(a, b)[j] by {
                    assert(r1.subrange(0, r0.len() as int)[a + j] == r0[a + j]);
                }
            }
            let c = s0[base + k] as int;
            if base + k + 1 < s0.len() {
                let d = s0[base + k + 1] as int;
                assert(c <= d <= w0.len());
                assert(w1.subrange(c, d) =~= w0.subrange(c, d)) by {
                    assert forall|j: int| 0 <= j < d - c implies w1.subrange(c, d)[j] == w0.subrange(c, d)[j] by {
                        assert(w1.subrange(0, w0.len() as int)[c + j] == w0[c + j]);
                    }
                }
                assert(file_content(w1, s1, base + k) == w1.subrange(c, d));
            } else {
                assert(s0[base + k] <= w0.len());
                assert(w1.subrange(c, w0.len() as int) =~= w0.subrange(c, w0.len() as int)) by {
                    assert forall|j: int| 0 <= j < w0.len() - c implies w1.subrange(c, w0.len() as int)[j]
                        == w0.subrange(c, w0.len() as int)[j] by {
                        assert(w1.subrange(0, w0.len() as int)[c + j] == w0[c + j]);
                    }
                }
                assert(file_content(w1, s1, base + k) == w1.subrange(c, w0.len() as int));
            }
        }
    }
}

/// Some runs, read in order at some offsets, gave the files their bytes.
pub open spec fn files_came_from_runs(
    written: Seq<u8>,
    starts: Seq<nat>,
    base: int,
    received: Seq<u8>,
    sizes: Seq<Option<u64>>,
) -> bool {
    exists|runs: Seq<Seq<ZRead>>, offsets: Seq<nat>|
        #[trigger] files_from_runs(written, starts, base, received, runs, offsets, sizes)
}

/// Receiving more bytes keeps where earlier runs were read.
proof fn lemma_runs_more_received(
    w: Seq<u8>,
    st: Seq<nat>,
    base: int,
    r0: Seq<u8>,
    r1: Seq<u8>,
    runs: Seq<Seq<ZRead>>,
    offsets: Seq<nat>,
    sizes: Seq<Option<u64>>,
)
    requires
        r1.len() >= r0.len(),
        r1.subrange(0, r0.len() as int) == r0,
        files_from_runs(w, st, base, r0, runs, offsets, sizes),
    ensures
        files_from_runs(w, st, base, r1, runs, offsets, sizes),
{
    reveal(files_from_runs);
    assert forall|k: int| 0 <= k < runs.len() implies r1.subrange(
        offsets[k] as int,
        (offsets[k] + zreads_bytes(#[trigger] runs[k]).len()) as int,
    ) == zreads_bytes(runs[k]) by {
        let a = offsets[k] as int;
        let b = (offsets[k] + zreads_bytes(runs[k]).len()) as int;
        assert(r1.subrange(a, b) =~= r0.subrange(a, b)) by {
            assert forall|j: int| 0 <= j < b - a implies r1.subrange(a, b)[j] == r0.subrange(a, b)[j] by {
                assert(r1.subrange(0, r0.len() as int)[a + j] == r0[a + j]);
            }
        }
    }
}

/// A file received by a file-data run read right after everything before it
/// joins the files that came from runs.
proof fn lemma_file_run_added(
    w0: Seq<u8>,
    s0: Seq<nat>,
    w1: Seq<u8>,
    s1: Seq<nat>,
    base: int,
    r0: Seq<u8>,
    r1: Seq<u8>,
    runs: Seq<Seq<ZRead>>,
    offsets: Seq<nat>,
    sizes: Seq<Option<u64>>,
    es: Seq<ZRead>,
    size: Option<u64>,
)
    requires
        0 <= base,
        s0.len() == base + sizes.len(),
        starts_well_formed(w0, s0),
        s1 == s0.push(w0.len()),
        files_from_runs(w0, s0, base, r0, runs, offsets, sizes),
        forall|k: int| 0 <= k < runs.len() ==> offsets[k] + zreads_bytes(#[trigger] runs[k]).len() <= r0.len(),
        zfile_finished(es, size),
        r1 == r0 + zreads_bytes(es),
        w1 == w0 + zfile_run(es)->0.kept,
    ensures
        files_from_runs(w1, s1, base, r1, runs.push(es), offsets.push(r0.len()), sizes.push(size)),
        forall|k: int|
            0 <= k < runs.len() + 1 ==> offsets.push(r0.len())[k] + zreads_bytes(
                #[trigger] runs.push(es)[k],
            ).len() <= r1.len(),
{
    reveal(files_from_runs);
    assert(r1.subrange(0, r0.len() as int) =~= r0);
    assert(w1.subrange(0, w0.len() as int) =~= w0);
    lemma_runs_extend(w0, s0, w1, s1, base, r0, r1, runs, offsets, sizes);
    let sizes1 = sizes.push(size);
    let runs1 = runs.push(es);
    let offsets1 = offsets.push(r0.len());
    assert(r1.subrange(r0.len() as int, (r0.len() + zreads_bytes(es).len()) as int) =~= zreads_bytes(es));
    assert(file_content(w1, s1, base + runs.len()) =~= zfile_run(es)->0.kept);
    assert forall|k: int| 0 <= k < runs1.len() implies {
        &&& zfile_finished(#[trigger] runs1[k], sizes1[k])
        &&& offsets1[k] + zreads_bytes(runs1[k]).len() <= r1.len()
        &&& r1.subrange(offsets1[k] as int, (offsets1[k] + zreads_bytes(runs1[k]).len()) as int)
            == zreads_bytes(runs1[k])
        &&& file_content(w1, s1, base + k) == zfile_run(runs1[k])->0.kept
    } by {
        if k < runs.len() {
            assert(runs1[k] == runs[k]);
            assert(offsets1[k] == offsets[k]);
            assert(sizes1[k] == sizes[k]);
        }
    }
    assert forall|k: int| 0 <= k < runs1.len() - 1 implies #[trigger] offsets1[k] + zreads_bytes(
        runs1[k],
    ).len() <= offsets1[k + 1] by {
        assert(runs1[k] == runs[k]);
        assert(offsets1[k] == offsets[k]);
        if k + 1 < runs.len() {
            assert(offsets1[k + 1] == offsets[k + 1]);
        }
    }
    assert forall|k: int| 0 <= k < runs.len() + 1 implies offsets1[k] + zreads_bytes(
        #[trigger] runs1[k],
    ).len() <= r1.len() by {
        if k < runs.len() {
            assert(runs1[k] == runs[k]);
            assert(offsets1[k] == offsets[k]);
        }
    }
}

/// Appending a file whose bytes match its announced size keeps every earlier
/// file's bytes and size.
proof fn lemma_file_completed(
    w0: Seq<u8>,
    s0: Seq<nat>,
    w1: Seq<u8>,
    base: int,
    sizes: Seq<Option<u64>>,
    size: Option<u64>,
)
    requires
        0 <= base,
        s0.len() == base + sizes.len(),
        starts_well_formed(w0, s0),
        w1.len() >= w0.len(),
        w1.subrange(0, w0.len() as int) == w0,
        files_match_sizes(w0, s0, base, sizes),
        size matches Some(n) ==> w1.len() == w0.len() + n,
    ensures
        files_match_sizes(w1, s0.push(w0.len()), base, sizes.push(size)),
        starts_well_formed(w1, s0.push(w0.len())),
{
    let s1 = s0.push(w0.len());
    let new_sizes = sizes.push(size);
    assert forall|k: int| 0 <= k < new_sizes.len() implies (#[trigger] new_sizes[k] matches Some(
        n,
    ) ==> file_content(w1, s1, base + k).len() == n) by {
        if k < sizes.len() {
            assert(new_sizes[k] == sizes[k]);
            let a = s0[base + k] as int;
            if base + k + 1 < s0.len() {
                let b = s0[base + k + 1] as int;
                assert(a <= b <= w0.len());
                assert(w1.subrange(a, b) =~= w0.subrange(a, b)) by {
                    assert forall|j: int| 0 <= j < b - a implies w1.subrange(a, b)[j]
                        == w0.subrange(a, b)[j] by {
                        assert(w1.subrange(0, w0.len() as int)[a + j] == w0[a + j]);
                    }
                }
            } else {
                assert(base + k + 1 == s0.len());
                assert(w1.subrange(a, w0.len() as int) =~= w0.subrange(a, w0.len() as int)) by {
                    assert forall|j: int| 0 <= j < w0.len() - a implies w1.subrange(
                        a,
                        w0.len() as int,
                    )[j] == w0.subrange(a, w0.len() as int)[j] by {
                        assert(w1.subrange(0, w0.len() as int)[a + j] == w0[a + j]);
                    }
                }
            }
        } else {
            assert(k == sizes.len());
        }
    }
    assert forall|k: int| 0 <= k < s1.len() - 1 implies #[trigger] s1[k] <= s1[k + 1] by {
        if k + 1 < s0.len() {
            assert(s0[k] <= s0[k + 1]);
        } else {
            assert(s0[k] <= w0.len());
        }
    }
}

/// The name and size of each received header.
pub open spec fn zheader_entries(hs: Seq<ZmodemFileHeader>) -> Seq<(Seq<char>, Option<u64>)> {
    Seq::new(hs.len(), |k: int| (hs[k].file_name@, hs[k].file_size))
}

/// A ZFILE data subpacket: `raw` reads to a subpacket that asks for an
/// answer and whose payload decodes to the name and size `h`.
pub open spec fn zfile_offer_read(raw: Seq<u8>, crc32: bool, h: (Seq<char>, Option<u64>)) -> bool {
    data_scan(data_start(), raw, crc32, ZMODEM_MAX_CHUNK as nat) matches DataScan::Found(p, end)
        && end == ZDataEnd::EndWithAck && spec_parse_zfile_header(p) == Ok::<
        Option<(Seq<char>, Option<u64>)>,
        ModemTransferError,
    >(Some(h))
}

/// Each header `hs[k]` is what the ZFILE subpacket `raws[k]`, read at
/// `offsets[k]` in `received`, announced; the subpackets come in order.
#[verifier::opaque]
pub open spec fn headers_from_offers(
    received: Seq<u8>,
    hs: Seq<(Seq<char>, Option<u64>)>,
    raws: Seq<Seq<u8>>,
    offsets: Seq<nat>,
    crcs: Seq<bool>,
) -> bool {
    &&& raws.len() == hs.len()
    &&& offsets.len() == hs.len()
    &&& crcs.len() == hs.len()
    &&& forall|k: int|
        0 <= k < hs.len() ==> {
            &&& offsets[k] + raws[k].len() <= received.len()
            &&& received.subrange(offsets[k] as int, (offsets[k] + raws[k].len()) as int)
                == #[trigger] raws[k]
            &&& zfile_offer_read(raws[k], crcs[k], hs[k])
        }
    &&& forall|k: int|
        0 <= k < hs.len() - 1 ==> #[trigger] offsets[k] + raws[k].len() <= offsets[k + 1]
}

/// Some ZFILE subpackets read in order announced the headers `hs`.
pub open spec fn headers_came_from_offers(received: Seq<u8>, hs: Seq<(Seq<char>, Option<u64>)>) -> bool {
    exists|raws: Seq<Seq<u8>>, offsets: Seq<nat>, crcs: Seq<bool>|
        #[trigger] headers_from_offers(received, hs, raws, offsets, crcs)
}

/// Reading more keeps where the offers were read.
proof fn lemma_offers_more_received(
    r0: Seq<u8>,
    r1: Seq<u8>,
    hs: Seq<(Seq<char>, Option<u64>)>,
    raws: Seq<Seq<u8>>,
    offsets: Seq<nat>,
    crcs: Seq<bool>,
)
    requires
        r0.len() <= r1.len(),
        r1.subrange(0, r0.len() as int) == r0,
        headers_from_offers(r0, hs, raws, offsets, crcs),
    ensures
        headers_from_offers(r1, hs, raws, offsets, crcs),
{
    reveal(headers_from_offers);
    assert forall|k: int| 0 <= k < hs.len() implies r1.subrange(
        offsets[k] as int,
        (offsets[k] + raws[k].len()) as int,
    ) == #[trigger] raws[k] by {
        let a = offsets[k] as int;
        let b = (offsets[k] + raws[k].len()) as int;
        assert(r1.subrange(a, b) =~= r0.subrange(a, b)) by {
            assert forall|j: int| 0 <= j < b - a implies r1.subrange(a, b)[j] == r0.subrange(a, b)[j] by {
                assert(r1.subrange(0, r0.len() as int)[a + j] == r0[a + j]);
            }
        }
    }
}

/// An offer read right after the earlier ones joins them.
proof fn lemma_offer_added(
    r0: Seq<u8>,
    t: Seq<u8>,
    hs: Seq<(Seq<char>, Option<u64>)>,
    raws: Seq<Seq<u8>>,
    offsets: Seq<nat>,
    crcs: Seq<bool>,
    crc32: bool,
    h: (Seq<char>, Option<u64>),
)
    requires
        headers_from_offers(r0, hs, raws, offsets, crcs),
        zfile_offer_read(t, crc32, h),
    ensures
        headers_from_offers(r0 + t, hs.push(h), raws.push(t), offsets.push(r0.len()), crcs.push(crc32)),
{
    reveal(headers_from_offers);
    let r1 = r0 + t;
    assert(r1.subrange(0, r0.len() as int) =~= r0);
    lemma_offers_more_received(r0, r1, hs, raws, offsets, crcs);
    let hs1 = hs.push(h);
    let raws1 = raws.push(t);
    let offsets1 = offsets.push(r0.len());
    let crcs1 = crcs.push(crc32);
    assert(r1.subrange(r0.len() as int, (r0.len() + t.len()) as int) =~= t);
    assert forall|k: int| 0 <= k < hs1.len() implies {
        &&& offsets1[k] + raws1[k].len() <= r1.len()
        &&& r1.subrange(offsets1[k] as int, (offsets1[k] + raws1[k].len()) as int)
            == #[trigger] raws1[k]
        &&& zfile_offer_read(raws1[k], crcs1[k], hs1[k])
    } by {
        if k < hs.len() {
            assert(raws1[k] == raws[k]);
            assert(hs1[k] == hs[k]);
            assert(crcs1[k] == crcs[k]);
            assert(offsets1[k] == offsets[k]);
        }
    }
    assert forall|k: int| 0 <= k < hs1.len() - 1 implies #[trigger] offsets1[k] + raws1[k].len()
        <= offsets1[k + 1] by {
        if k < hs.len() - 1 {
            assert(offsets1[k + 1] == offsets[k + 1]);
        } else {
            assert(offsets[k] + raws[k].len() <= r0.len());
        }
    }
}

/// What a ZMODEM receive session sends after its first ZRINIT and writes
/// to the sink, and how it ends.
pub ghost struct ZRecvSim {
    pub result: Result<Seq<(Seq<char>, Option<u64>)>, ModemTransferError>,
    pub sent: Seq<u8>,
    pub written: Seq<u8>,
}

/// `sim` after `bytes` were sent and `data` written first.
pub open spec fn zrecv_after(bytes: Seq<u8>, data: Seq<u8>, sim: ZRecvSim) -> ZRecvSim {
    ZRecvSim { sent: bytes + sim.sent, written: data + sim.written, ..sim }
}

/// A session that ends with `e`, sending and writing nothing more.
pub open spec fn zrecv_fail(e: ModemTransferError) -> ZRecvSim {
    ZRecvSim { result: Err(e), sent: Seq::empty(), written: Seq::empty() }
}

/// The session end after ZFIN: our ZFIN, then the wait for "OO".
pub open spec fn zrecv_finish(
    rest: Seq<u8>,
    hs: Seq<(Seq<char>, Option<u64>)>,
    rf: ModemTransferError,
) -> ZRecvSim {
    ZRecvSim {
        result: match zfin_wait(rest, 0, 0, rf) {
            Ok(()) => Ok(hs),
            Err(e) => Err(e),
        },
        sent: zheader_at(ZFrameType::ZFin, 0),
        written: Seq::empty(),
    }
}

/// A ZMODEM receive session on a reliable channel whose unread input is
/// `input`, with a sink that does not fail, the files `hs` received so far;
/// `rf` is the channel's read error: the next header, then what it leads to
/// (`zrecv_dispatch`).
#[verifier::opaque]
pub open spec fn zrecv_sim(
    input: Seq<u8>,
    hs: Seq<(Seq<char>, Option<u64>)>,
    rf: ModemTransferError,
) -> ZRecvSim
    decreases input.len(),
{
    match header_take(HeaderScan::Searching, input) {
        None => zrecv_fail(rf),
        Some(n) => if n == 0 || n > input.len() {
            zrecv_fail(rf)
        } else {
            let rest = input.subrange(n as int, input.len() as int);
            match header_scan(HeaderScan::Searching, input.take(n as int)) {
                HeaderScan::Found(h) => {
                    let bound = input.len();
                    let crc = h.2 == ZHeaderEncoding::Bin32;
                    if rest.len() >= bound {
                        zrecv_fail(rf)
                    } else if h.0 == ZFrameType::ZrqInit {
                        zrecv_after(zrinit_answer(), Seq::empty(), zrecv_sim(rest, hs, rf))
                    } else if h.0 == ZFrameType::ZFile {
                        {
                                match data_take(data_start(), rest, crc, ZMODEM_MAX_CHUNK as nat) {
                                    None => zrecv_fail(rf),
                                    Some(m) => if m == 0 || m > rest.len() {
                                        zrecv_fail(rf)
                                    } else {
                                        let rest2 = rest.subrange(m as int, rest.len() as int);
                                        match data_scan(data_start(), rest.take(m as int), crc, ZMODEM_MAX_CHUNK as nat) {
                                            DataScan::Found(p, end) => {
                                                    if end != ZDataEnd::EndWithAck {
                                                        zrecv_fail(ModemTransferError::UnexpectedFrame)
                                                    } else {
                                                        match spec_parse_zfile_header(p) {
                                                            Err(e) => zrecv_fail(e),
                                                            Ok(None) => zrecv_finish(rest2, hs, rf),
                                                            Ok(Some(fh)) => if fh.1 matches Some(sz) && sz > ZMODEM_MAX_POSITION {
                                                                zrecv_fail(ModemTransferError::UnsupportedFileSize(fh.1->Some_0))
                                                            } else {
                                                                let fsim = zfile_receive(rest2, fh.1, rf);
                                                                let pre = zheader_at(ZFrameType::ZRpos, 0) + fsim.sent;
                                                                match fsim.result {
                                                                    Err(e) => ZRecvSim { result: Err(e), sent: pre, written: fsim.kept },
                                                                    Ok(_) => if fsim.left.len() < bound {
                                                                        zrecv_after(pre, fsim.kept, zrecv_sim(fsim.left, hs.push(fh), rf))
                                                                    } else {
                                                                        zrecv_fail(rf)
                                                                    },
                                                                }
                                                            },
                                                        }
                                                    }
                                            },
                                            DataScan::Failed(e) => zrecv_fail(e),
                                            _ => zrecv_fail(rf),
                                        }
                                    },
                                }
                        }
                    } else if h.0 == ZFrameType::ZsInit {
                        match data_take(data_start(), rest, crc, ZMODEM_ATTENTION_MAX_BYTES as nat) {
                            None => zrecv_fail(rf),
                            Some(m) => if m == 0 || m > rest.len() {
                                zrecv_fail(rf)
                            } else {
                                let rest2 = rest.subrange(m as int, rest.len() as int);
                                match data_scan(data_start(), rest.take(m as int), crc, ZMODEM_ATTENTION_MAX_BYTES as nat) {
                                    DataScan::Found(p, end) => if end != ZDataEnd::EndWithAck {
                                        zrecv_fail(ModemTransferError::UnexpectedFrame)
                                    } else {
                                        zrecv_after(zheader_at(ZFrameType::ZAck, 1), Seq::empty(), zrecv_sim(rest2, hs, rf))
                                    },
                                    DataScan::Failed(e) => zrecv_fail(e),
                                    _ => zrecv_fail(rf),
                                }
                            },
                        }
                    } else if h.0 == ZFrameType::ZFin {
                        zrecv_finish(rest, hs, rf)
                    } else if h.0 == ZFrameType::ZAbort || h.0 == ZFrameType::ZCan {
                        zrecv_fail(ModemTransferError::Cancelled)
                    } else {
                        zrecv_sim(rest, hs, rf)
                    }
                },
                HeaderScan::Failed(e) => zrecv_fail(e),
                _ => zrecv_fail(rf),
            }
        },
    }
}

/// What the header `h` leads to, with `rest` unread (`bound` the length of
/// the input before the header). ZRQINIT is answered with ZRINIT; ZFILE is
/// followed by a subpacket naming the file (`zrecv_offer`); ZSINIT is
/// followed by a subpacket asking for an answer and answered with ZACK at
/// 1; ZFIN ends the session; ZCAN and ZABORT cancel; other headers are
/// passed over.
#[verifier::opaque]
pub open spec fn zrecv_dispatch(
    bound: nat,
    h: (ZFrameType, Seq<u8>, ZHeaderEncoding),
    rest: Seq<u8>,
    hs: Seq<(Seq<char>, Option<u64>)>,
    rf: ModemTransferError,
) -> ZRecvSim
{
    let crc = h.2 == ZHeaderEncoding::Bin32;
    if rest.len() >= bound {
        zrecv_fail(rf)
    } else if h.0 == ZFrameType::ZrqInit {
        zrecv_after(zrinit_answer(), Seq::empty(), zrecv_sim(rest, hs, rf))
    } else if h.0 == ZFrameType::ZFile {
        zrecv_offer(bound, rest, crc, hs, rf)
    } else if h.0 == ZFrameType::ZsInit {
        match data_take(data_start(), rest, crc, ZMODEM_ATTENTION_MAX_BYTES as nat) {
            None => zrecv_fail(rf),
            Some(m) => if m == 0 || m > rest.len() {
                zrecv_fail(rf)
            } else {
                let rest2 = rest.subrange(m as int, rest.len() as int);
                match data_scan(data_start(), rest.take(m as int), crc, ZMODEM_ATTENTION_MAX_BYTES as nat) {
                    DataScan::Found(p, end) => if end != ZDataEnd::EndWithAck {
                        zrecv_fail(ModemTransferError::UnexpectedFrame)
                    } else {
                        zrecv_after(zheader_at(ZFrameType::ZAck, 1), Seq::empty(), zrecv_sim(rest2, hs, rf))
                    },
                    DataScan::Failed(e) => zrecv_fail(e),
                    _ => zrecv_fail(rf),
                }
            },
        }
    } else if h.0 == ZFrameType::ZFin {
        zrecv_finish(rest, hs, rf)
    } else if h.0 == ZFrameType::ZAbort || h.0 == ZFrameType::ZCan {
        zrecv_fail(ModemTransferError::Cancelled)
    } else {
        zrecv_sim(rest, hs, rf)
    }
}

/// The part of a session after a ZFILE header: `rest` is the unread input,
/// `bound` the length of the input before that header, `crc` whether the
/// header was a CRC-32 one.
#[verifier::opaque]
pub open spec fn zrecv_offer(
    bound: nat,
    rest: Seq<u8>,
    crc: bool,
    hs: Seq<(Seq<char>, Option<u64>)>,
    rf: ModemTransferError,
) -> ZRecvSim
{
    match data_take(data_start(), rest, crc, ZMODEM_MAX_CHUNK as nat) {
        None => zrecv_fail(rf),
        Some(m) => if m == 0 || m > rest.len() {
            zrecv_fail(rf)
        } else {
            let rest2 = rest.subrange(m as int, rest.len() as int);
            match data_scan(data_start(), rest.take(m as int), crc, ZMODEM_MAX_CHUNK as nat) {
                DataScan::Found(p, end) => zrecv_offer_after(bound, rest2, p, end, hs, rf),
                DataScan::Failed(e) => zrecv_fail(e),
                _ => zrecv_fail(rf),
            }
        },
    }
}

/// What follows the subpacket after a ZFILE header, with payload `p`
/// ending as `end` and `rest` unread: the name and size it gives, then the
/// file's data phase (`zfile_sim`) after a ZRPOS at 0.
#[verifier::opaque]
pub open spec fn zrecv_offer_after(
    bound: nat,
    rest2: Seq<u8>,
    p: Seq<u8>,
    end: ZDataEnd,
    hs: Seq<(Seq<char>, Option<u64>)>,
    rf: ModemTransferError,
) -> ZRecvSim
{
    if end != ZDataEnd::EndWithAck {
        zrecv_fail(ModemTransferError::UnexpectedFrame)
    } else {
        match spec_parse_zfile_header(p) {
            Err(e) => zrecv_fail(e),
            Ok(None) => zrecv_finish(rest2, hs, rf),
            Ok(Some(fh)) => if fh.1 matches Some(sz) && sz > ZMODEM_MAX_POSITION {
                zrecv_fail(ModemTransferError::UnsupportedFileSize(fh.1->Some_0))
            } else {
                let fsim = zfile_receive(rest2, fh.1, rf);
                let pre = zheader_at(ZFrameType::ZRpos, 0) + fsim.sent;
                match fsim.result {
                    Err(e) => ZRecvSim { result: Err(e), sent: pre, written: fsim.kept },
                    Ok(_) => if fsim.left.len() < bound {
                        zrecv_after(pre, fsim.kept, zrecv_sim(fsim.left, hs.push(fh), rf))
                    } else {
                        zrecv_fail(rf)
                    },
                }
            },
        }
    }
}

/// A ZRQINIT is answered with ZRINIT and the session goes on.
proof fn lemma_dispatch_zrqinit(
    bound: nat,
    h: (ZFrameType, Seq<u8>, ZHeaderEncoding),
    rest: Seq<u8>,
    hs: Seq<(Seq<char>, Option<u64>)>,
    rf: ModemTransferError,
)
    requires
        rest.len() < bound,
        h.0 == ZFrameType::ZrqInit,
    ensures
        zrecv_dispatch(bound, h, rest, hs, rf) == zrecv_after(
            zrinit_answer(),
            Seq::empty(),
            zrecv_sim(rest, hs, rf),
        ),
{
    reveal(zrecv_dispatch);
}

/// A ZFILE header goes on to the file offer.
proof fn lemma_dispatch_zfile(
    bound: nat,
    h: (ZFrameType, Seq<u8>, ZHeaderEncoding),
    rest: Seq<u8>,
    hs: Seq<(Seq<char>, Option<u64>)>,
    rf: ModemTransferError,
)
    requires
        rest.len() < bound,
        h.0 == ZFrameType::ZFile,
    ensures
        zrecv_dispatch(bound, h, rest, hs, rf) == zrecv_offer(
            bound,
            rest,
            h.2 == ZHeaderEncoding::Bin32,
            hs,
            rf,
        ),
{
    reveal(zrecv_dispatch);
}

/// ZFIN ends the session; ZCAN and ZABORT cancel; headers other than
/// ZRQINIT, ZFILE and ZSINIT are passed over.
proof fn lemma_dispatch_other(
    bound: nat,
    h: (ZFrameType, Seq<u8>, ZHeaderEncoding),
    rest: Seq<u8>,
    hs: Seq<(Seq<char>, Option<u64>)>,
    rf: ModemTransferError,
)
    requires
        rest.len() < bound,
        h.0 != ZFrameType::ZrqInit,
        h.0 != ZFrameType::ZFile,
        h.0 != ZFrameType::ZsInit,
    ensures
        h.0 == ZFrameType::ZFin ==> zrecv_dispatch(bound, h, rest, hs, rf) == zrecv_finish(rest, hs, rf),
        h.0 != ZFrameType::ZFin && (h.0 == ZFrameType::ZAbort || h.0 == ZFrameType::ZCan)
            ==> zrecv_dispatch(bound, h, rest, hs, rf) == zrecv_fail(ModemTransferError::Cancelled),
        h.0 != ZFrameType::ZFin && h.0 != ZFrameType::ZAbort && h.0 != ZFrameType::ZCan
            ==> zrecv_dispatch(bound, h, rest, hs, rf) == zrecv_sim(rest, hs, rf),
{
    reveal(zrecv_dispatch);
}

/// ZSINIT: its subpacket `t` (the rest `rest2` unread) must ask for an
/// answer, and is acknowledged with ZACK at 1.
proof fn lemma_dispatch_zsinit(
    bound: nat,
    h: (ZFrameType, Seq<u8>, ZHeaderEncoding),
    rest: Seq<u8>,
    t: Seq<u8>,
    rest2: Seq<u8>,
    hs: Seq<(Seq<char>, Option<u64>)>,
    rf: ModemTransferError,
)
    requires
        rest.len() < bound,
        h.0 == ZFrameType::ZsInit,
        rest == t + rest2,
    ensures
        ({
            let crc = h.2 == ZHeaderEncoding::Bin32;
            let max = ZMODEM_ATTENTION_MAX_BYTES as nat;
            let d = zrecv_dispatch(bound, h, rest, hs, rf);
            &&& data_take(data_start(), rest, crc, max) is None ==> d == zrecv_fail(rf)
            &&& (data_take(data_start(), rest, crc, max) == Some(t.len()) && t.len() > 0) ==> match data_scan(data_start(), t, crc, max) {
                DataScan::Found(p, end) => d == if end != ZDataEnd::EndWithAck {
                    zrecv_fail(ModemTransferError::UnexpectedFrame)
                } else {
                    zrecv_after(zheader_at(ZFrameType::ZAck, 1), Seq::empty(), zrecv_sim(rest2, hs, rf))
                },
                DataScan::Failed(e) => d == zrecv_fail(e),
                _ => true,
            }
        }),
{
    reveal(zrecv_dispatch);
    assert(rest.take(t.len() as int) =~= t);
    assert(rest.subrange(t.len() as int, rest.len() as int) =~= rest2);
}

/// The header `t` (the rest `rest` unread) read from `input`: a session
/// goes on as the header dispatches, or ends with the read's failure.
proof fn lemma_sim_header(
    input: Seq<u8>,
    t: Seq<u8>,
    rest: Seq<u8>,
    hs: Seq<(Seq<char>, Option<u64>)>,
    rf: ModemTransferError,
)
    requires
        input == t + rest,
    ensures
        header_take(HeaderScan::Searching, input) is None ==> zrecv_sim(input, hs, rf) == zrecv_fail(rf),
        (header_take(HeaderScan::Searching, input) == Some(t.len()) && t.len() > 0) ==> match header_scan(HeaderScan::Searching, t) {
            HeaderScan::Found(h) => zrecv_sim(input, hs, rf) == zrecv_dispatch(input.len(), h, rest, hs, rf),
            HeaderScan::Failed(e) => zrecv_sim(input, hs, rf) == zrecv_fail(e),
            _ => true,
        },
{
    reveal_with_fuel(zrecv_sim, 1);
    reveal(zrecv_dispatch);
    reveal(zrecv_offer);
    reveal(zrecv_offer_after);
    assert(input.take(t.len() as int) =~= t);
    assert(input.subrange(t.len() as int, input.len() as int) =~= rest);
}

/// The ZFILE subpacket `t` (the rest `rest2` unread): the offer goes on as
/// its payload says, or ends with the read's failure.
proof fn lemma_offer_read(
    bound: nat,
    rest: Seq<u8>,
    t: Seq<u8>,
    rest2: Seq<u8>,
    crc: bool,
    hs: Seq<(Seq<char>, Option<u64>)>,
    rf: ModemTransferError,
)
    requires
        rest == t + rest2,
    ensures
        data_take(data_start(), rest, crc, ZMODEM_MAX_CHUNK as nat) is None ==> zrecv_offer(bound, rest, crc, hs, rf) == zrecv_fail(rf),
        (data_take(data_start(), rest, crc, ZMODEM_MAX_CHUNK as nat) == Some(t.len()) && t.len() > 0) ==> match data_scan(data_start(), t, crc, ZMODEM_MAX_CHUNK as nat) {
            DataScan::Found(p, end) => zrecv_offer(bound, rest, crc, hs, rf) == zrecv_offer_after(bound, rest2, p, end, hs, rf),
            DataScan::Failed(e) => zrecv_offer(bound, rest, crc, hs, rf) == zrecv_fail(e),
            _ => true,
        },
{
    reveal(zrecv_offer);
    assert(rest.take(t.len() as int) =~= t);
    assert(rest.subrange(t.len() as int, rest.len() as int) =~= rest2);
}

/// What follows a ZFILE subpacket with payload `p` ending as `end`.
proof fn lemma_offer_after(
    bound: nat,
    rest2: Seq<u8>,
    p: Seq<u8>,
    end: ZDataEnd,
    hs: Seq<(Seq<char>, Option<u64>)>,
    rf: ModemTransferError,
)
    ensures
        ({
            let o = zrecv_offer_after(bound, rest2, p, end, hs, rf);
            &&& end != ZDataEnd::EndWithAck ==> o == zrecv_fail(ModemTransferError::UnexpectedFrame)
            &&& end == ZDataEnd::EndWithAck ==> match spec_parse_zfile_header(p) {
                Err(e) => o == zrecv_fail(e),
                Ok(None) => o == zrecv_finish(rest2, hs, rf),
                Ok(Some(fh)) => if fh.1 matches Some(sz) && sz > ZMODEM_MAX_POSITION {
                    o == zrecv_fail(ModemTransferError::UnsupportedFileSize(fh.1->Some_0))
                } else {
                    let fsim = zfile_receive(rest2, fh.1, rf);
                    let pre = zheader_at(ZFrameType::ZRpos, 0) + fsim.sent;
                    match fsim.result {
                        Err(e) => o == (ZRecvSim { result: Err(e), sent: pre, written: fsim.kept }),
                        Ok(_) => fsim.left.len() < bound ==> o == zrecv_after(
                            pre,
                            fsim.kept,
                            zrecv_sim(fsim.left, hs.push(fh), rf),
                        ),
                    }
                },
            }
        }),
{
    reveal(zrecv_offer_after);
}

/// `cur`, what is left of a session after `sent` went out and `written`
/// was written, still gives the session `total` that began at `sent0` and
/// `w0`.
pub open spec fn zrecv_tracks(
    total: ZRecvSim,
    cur: ZRecvSim,
    sent0: Seq<u8>,
    sent: Seq<u8>,
    w0: Seq<u8>,
    written: Seq<u8>,
) -> bool {
    &&& total.result == cur.result
    &&& sent0 + total.sent == sent + cur.sent
    &&& w0 + total.written == written + cur.written
}

/// Runs the file-data receiver; the same as `receive_zmodem_file_data`,
/// its run stated from the receiver's start.
fn receive_zmodem_file<I: ModemIo, W: ModemWrite>(
    io: &mut I,
    sink: &mut W,
    file_size: Option<u64>,
) -> (r: Result<u64, ModemTransferError>)
    requires
        file_size matches Some(n) ==> n <= ZMODEM_MAX_POSITION,
    ensures
        final(io).pending() <= old(io).pending(),
        final(sink).file_starts() == old(sink).file_starts(),
        final(sink).announced() == old(sink).announced(),
        final(sink).written().len() >= old(sink).written().len(),
        final(sink).written().subrange(0, old(sink).written().len() as int) == old(sink).written(),
        r matches Ok(n) ==> final(sink).written().len() == old(sink).written().len() + n && (
        file_size matches Some(s) ==> n == s),
        r is Ok ==> exists|es: Seq<ZRead>|
            #[trigger] zfile_finished(es, file_size) && final(io).received() == old(io).received()
                + zreads_bytes(es) && final(sink).written() == old(sink).written() + zfile_run(
                es,
            )->0.kept,
        old(io).received().len() <= final(io).received().len(),
        final(io).incoming().len() <= old(io).incoming().len(),
        r matches Err(e) ==> channel_error(*old(io), *final(io), e) || final(sink).failure() == Some(e),
        old(io).reliable() && old(sink).failure() is None && old(io).read_failure()
            != ModemTransferError::Protocol(ModemError::InvalidCrc) ==> ({
            let sim = zfile_receive(old(io).incoming(), file_size, old(io).read_failure());
            &&& r == sim.result
            &&& final(io).sent() == old(io).sent() + zheader_at(ZFrameType::ZRpos, 0) + sim.sent
            &&& r is Ok ==> final(sink).written() == old(sink).written() + sim.kept
            &&& r is Ok ==> final(io).incoming() == sim.left
            &&& final(io).reliable() && final(sink).failure() is None && final(io).read_failure()
                == old(io).read_failure()
        }),
{
    proof {
        lemma_zfile_receive(old(io).incoming(), file_size, old(io).read_failure());
    }
    receive_zmodem_file_data(io, sink, file_size)
}

/// Receives a ZMODEM batch: one file of `sink` per announced file, then the
/// session end. Returns the headers; each file that announced a size got
/// exactly that many bytes.
#[verifier::rlimit(100)]
#[verifier::spinoff_prover]
pub fn receive_zmodem<I: ModemIo, W: ModemWrite>(io: &mut I, sink: &mut W) -> (r: Result<
    Vec<ZmodemFileHeader>,
    ModemTransferError,
>)
    requires
        starts_well_formed(old(sink).written(), old(sink).file_starts()),
    ensures
        final(io).pending() <= old(io).pending(),
        r matches Ok(hs) ==> final(sink).file_starts().len() == old(sink).file_starts().len()
            + hs@.len() && files_match_sizes(
            final(sink).written(),
            final(sink).file_starts(),
            old(sink).file_starts().len() as int,
            zheader_sizes(hs@),
        ) && ends_with_oo(final(io).received()),
        r matches Ok(hs) ==> files_came_from_runs(
            final(sink).written(),
            final(sink).file_starts(),
            old(sink).file_starts().len() as int,
            final(io).received(),
            zheader_sizes(hs@),
        ),
        r matches Err(e) ==> channel_error(*old(io), *final(io), e) || final(sink).failure() == Some(e),
        r matches Ok(hs) ==> final(sink).announced() == old(sink).announced() + zheader_entries(hs@),
        r matches Ok(hs) ==> headers_came_from_offers(final(io).received(), zheader_entries(hs@)),
        old(io).reliable() && old(sink).failure() is None && old(io).read_failure()
            != ModemTransferError::Protocol(ModemError::InvalidCrc) ==> ({
            let sim = zrecv_sim(old(io).incoming(), Seq::empty(), old(io).read_failure());
            &&& match (r, sim.result) {
                (Ok(hs), Ok(v)) => zheader_entries(hs@) == v,
                (Err(e), Err(f)) => e == f,
                _ => false,
            }
            &&& final(io).sent() == old(io).sent() + zrinit_answer() + sim.sent
            &&& r is Ok ==> final(sink).written() == old(sink).written() + sim.written
        }),
{
    let ghost rel = old(io).reliable() && old(sink).failure() is None && old(io).read_failure()
        != ModemTransferError::Protocol(ModemError::InvalidCrc);
    let ghost rf = old(io).read_failure();
    let ghost total = zrecv_sim(old(io).incoming(), Seq::empty(), rf);
    let ghost sent0 = old(io).sent() + zrinit_answer();
    let ghost w_start = old(sink).written();
    let ghost base = old(sink).file_starts().len() as int;
    let mut received: Vec<ZmodemFileHeader> = Vec::new();
    let ghost mut runs: Seq<Seq<ZRead>> = Seq::empty();
    let ghost mut offsets: Seq<nat> = Seq::empty();
    let ghost mut raws: Seq<Seq<u8>> = Seq::empty();
    let ghost mut offer_at: Seq<nat> = Seq::empty();
    let ghost mut crcs: Seq<bool> = Seq::empty();
    assert(zheader_entries(received@) =~= Seq::<(Seq<char>, Option<u64>)>::empty());
    assert(old(sink).announced() + zheader_entries(received@) =~= old(sink).announced());
    match send_zrinit(io) {
        Ok(()) => {},
        Err(e) => return Err(e),
    }
    assert(zheader_sizes(received@) =~= Seq::<Option<u64>>::empty());
    assert(w_start + total.written =~= sink.written() + total.written);
    assert(files_from_runs(
        sink.written(),
        sink.file_starts(),
        base,
        io.received(),
        runs,
        offsets,
        zheader_sizes(received@),
    )) by {
        reveal(files_from_runs);
    }
    assert(headers_from_offers(io.received(), zheader_entries(received@), raws, offer_at, crcs)) by {
        reveal(headers_from_offers);
    }
    loop
        invariant
            rel == (old(io).reliable() && old(sink).failure() is None && old(io).read_failure()
                != ModemTransferError::Protocol(ModemError::InvalidCrc)),
            rf == old(io).read_failure(),
            total == zrecv_sim(old(io).incoming(), Seq::empty(), rf),
            sent0 == old(io).sent() + zrinit_answer(),
            w_start == old(sink).written(),
            rel ==> io.reliable() && sink.failure() is None && io.read_failure() == rf
                && zrecv_tracks(
                total,
                zrecv_sim(io.incoming(), zheader_entries(received@), rf),
                sent0,
                io.sent(),
                w_start,
                sink.written(),
            ),
            io.pending() <= old(io).pending(),
            old(io).received().len() <= io.received().len(),
            base == old(sink).file_starts().len(),
            sink.file_starts().len() == base + received@.len(),
            starts_well_formed(sink.written(), sink.file_starts()),
            files_match_sizes(sink.written(), sink.file_starts(), base, zheader_sizes(received@)),
            files_from_runs(
                sink.written(),
                sink.file_starts(),
                base,
                io.received(),
                runs,
                offsets,
                zheader_sizes(received@),
            ),
            forall|k: int|
                0 <= k < runs.len() ==> offsets[k] + zreads_bytes(#[trigger] runs[k]).len()
                    <= io.received().len(),
            sink.announced() == old(sink).announced() + zheader_entries(received@),
            headers_from_offers(io.received(), zheader_entries(received@), raws, offer_at, crcs),
        decreases io.pending(),
    {
        let ghost r_start = io.received();
        let ghost before = *io;
        let ghost hs0 = zheader_entries(received@);
        let ghost cur0 = zrecv_sim(io.incoming(), hs0, rf);
        let header = match read_zmodem_header(io) {
            Ok(h) => h,
            Err(e) => {
                proof {
                    if rel {
                        let t = bytes_read(before, *io);
                        lemma_take_rest(before.incoming(), t, io.incoming());
                        lemma_sim_header(before.incoming(), t, io.incoming(), hs0, rf);
                        if is_terminal(header_scan(HeaderScan::Searching, t)) {
                            assert(t.len() > 0);
                        }
                    }
                }
                return Err(e);
            },
        };
        let ghost hdr = (header.frame_type, header.position@, header.encoding);
        proof {
            if rel {
                let t = bytes_read(before, *io);
                lemma_take_rest(before.incoming(), t, io.incoming());
                assert(header_scan(HeaderScan::Searching, t) == HeaderScan::Found(hdr));
                assert(t.len() > 0);
                lemma_sim_header(before.incoming(), t, io.incoming(), hs0, rf);
                assert(cur0 == zrecv_dispatch(before.incoming().len(), hdr, io.incoming(), hs0, rf));
                assert(io.incoming().len() < before.incoming().len());
            }
        }
        let ghost bound = before.incoming().len();
        let ghost after_header = *io;
        proof {
            lemma_runs_more_received(
                sink.written(),
                sink.file_starts(),
                base,
                r_start,
                io.received(),
                runs,
                offsets,
                zheader_sizes(received@),
            );
            lemma_offers_more_received(r_start, io.received(), zheader_entries(received@), raws, offer_at, crcs);
        }
        if header.frame_type == ZFrameType::ZrqInit {
            proof {
                if rel {
                    lemma_dispatch_zrqinit(bound, hdr, io.incoming(), hs0, rf);
                }
            }
            let ghost sent_before = io.sent();
            match send_zrinit(io) {
                Ok(()) => {},
                Err(e) => return Err(e),
            }
            proof {
                if rel {
                    let cur = zrecv_sim(io.incoming(), hs0, rf);
                    assert(cur0 == zrecv_after(zrinit_answer(), Seq::empty(), cur));
                    assert(cur0.sent == zrinit_answer() + cur.sent);
                    assert(cur0.written == cur.written);
                    assert(sent0 + total.sent =~= io.sent() + cur.sent);
                }
            }
        } else if header.frame_type == ZFrameType::ZFile {
            let use_crc32 = header.encoding == ZHeaderEncoding::Bin32;
            let ghost r_header = io.received();
            proof {
                if rel {
                    lemma_dispatch_zfile(bound, hdr, io.incoming(), hs0, rf);
                }
            }
            let file_header_frame = match read_zmodem_data(io, use_crc32, ZMODEM_MAX_CHUNK) {
                Ok(f) => f,
                Err(e) => {
                    proof {
                        if rel {
                            let t2 = bytes_read(after_header, *io);
                            lemma_take_rest(after_header.incoming(), t2, io.incoming());
                            lemma_offer_read(bound, after_header.incoming(), t2, io.incoming(), use_crc32, hs0, rf);
                            if data_is_terminal(data_scan(data_start(), t2, use_crc32, ZMODEM_MAX_CHUNK as nat)) {
                                assert(t2.len() > 0);
                            }
                        }
                    }
                    return Err(e);
                },
            };
            proof {
                if rel {
                    let t2 = bytes_read(after_header, *io);
                    lemma_take_rest(after_header.incoming(), t2, io.incoming());
                    assert(data_scan(data_start(), t2, use_crc32, ZMODEM_MAX_CHUNK as nat) == DataScan::Found(
                        file_header_frame.payload@,
                        file_header_frame.end,
                    ));
                    assert(t2.len() > 0);
                    lemma_offer_read(bound, after_header.incoming(), t2, io.incoming(), use_crc32, hs0, rf);
                    lemma_offer_after(
                        bound,
                        io.incoming(),
                        file_header_frame.payload@,
                        file_header_frame.end,
                        hs0,
                        rf,
                    );
                }
            }
            let ghost after_offer = *io;
            let ghost r_offer_end = io.received();
            proof {
                lemma_runs_more_received(
                    sink.written(),
                    sink.file_starts(),
                    base,
                    r_header,
                    io.received(),
                    runs,
                    offsets,
                    zheader_sizes(received@),
                );
            }
            if file_header_frame.end != ZDataEnd::EndWithAck {
                return Err(ModemTransferError::UnexpectedFrame);
            }
            let (file_name, file_size) = match parse_zfile_header(
                file_header_frame.payload.as_slice(),
            ) {
                Ok(Some(h)) => h,
                Ok(None) => {
                    proof {
                        if rel {
                            assert(cur0 == zrecv_finish(io.incoming(), hs0, rf));
                        }
                        lemma_offers_more_received(r_header, io.received(), zheader_entries(received@), raws, offer_at, crcs);
                    }
                    let ghost r_end = io.received();
                    match finish_zmodem_receive(io) {
                        Ok(()) => {},
                        Err(e) => return Err(e),
                    }
                    proof {
                        lemma_runs_more_received(
                            sink.written(),
                            sink.file_starts(),
                            base,
                            r_end,
                            io.received(),
                            runs,
                            offsets,
                            zheader_sizes(received@),
                        );
                        lemma_offers_more_received(r_end, io.received(), zheader_entries(received@), raws, offer_at, crcs);
                        assert(files_from_runs(
                            sink.written(),
                            sink.file_starts(),
                            old(sink).file_starts().len() as int,
                            io.received(),
                            runs,
                            offsets,
                            zheader_sizes(received@),
                        ));
                    }
                    return Ok(received);
                },
                Err(e) => return Err(e),
            };
            match file_size {
                Some(n) => match validate_zmodem_file_size(n) {
                    Ok(()) => {},
                    Err(e) => return Err(e),
                },
                None => {},
            }
            let file_header = ZmodemFileHeader { file_name, file_size };
            let ghost w0 = sink.written();
            let ghost s0 = sink.file_starts();
            match sink.open_file(&file_header.file_name, file_header.file_size) {
                Ok(()) => {},
                Err(e) => return Err(e),
            }
            let ghost r_mid = io.received();
            let ghost w_mid = sink.written();
            let ghost s_mid = sink.file_starts();
            let ghost sent_mid = io.sent();
            let ghost io_mid = *io;
            let ghost fh = (file_header.file_name@, file_header.file_size);
            let ghost fsim = zfile_receive(io.incoming(), file_header.file_size, rf);
            proof {
                if rel {
                    assert(io.incoming() == after_offer.incoming());
                    assert(io.sent() == after_offer.sent());
                    assert(sink.written() == w0);
                }
            }
            match receive_zmodem_file(io, sink, file_header.file_size) {
                Ok(_) => {},
                Err(e) => {
                    proof {
                        if rel {
                            assert(cur0 == (ZRecvSim {
                                result: Err(e),
                                sent: zheader_at(ZFrameType::ZRpos, 0) + fsim.sent,
                                written: fsim.kept,
                            }));
                        }
                    }
                    return Err(e);
                },
            }
            proof {
                if rel {
                    assert(io.incoming() == fsim.left);
                    assert(fsim.left.len() < before.incoming().len());
                    let cur = zrecv_sim(io.incoming(), hs0.push(fh), rf);
                    let pre = zheader_at(ZFrameType::ZRpos, 0) + fsim.sent;
                    assert(cur0 == zrecv_after(pre, fsim.kept, cur));
                    assert(io.sent() =~= sent_mid + pre);
                    assert(sent0 + total.sent =~= io.sent() + cur.sent);
                    assert(w_start + total.written =~= sink.written() + cur.written);
                }
            }
            proof {
                let es = choose|es: Seq<ZRead>|
                    #[trigger] zfile_finished(es, file_header.file_size) && io.received() == r_mid
                        + zreads_bytes(es) && sink.written() == w_mid + zfile_run(es)->0.kept;
                lemma_file_run_added(
                    w_mid,
                    s0,
                    sink.written(),
                    s_mid,
                    base,
                    r_mid,
                    io.received(),
                    runs,
                    offsets,
                    zheader_sizes(received@),
                    es,
                    file_header.file_size,
                );
                runs = runs.push(es);
                offsets = offsets.push(r_mid.len());
                lemma_file_completed(
                    w0,
                    s0,
                    sink.written(),
                    base,
                    zheader_sizes(received@),
                    file_header.file_size,
                );
                assert(zheader_sizes(received@.push(file_header)) =~= zheader_sizes(
                    received@,
                ).push(file_header.file_size));
            }
            proof {
                let t = r_offer_end.subrange(r_header.len() as int, r_offer_end.len() as int);
                assert(r_offer_end =~= r_header + t);
                let h = (file_header.file_name@, file_header.file_size);
                lemma_offer_added(r_header, t, zheader_entries(received@), raws, offer_at, crcs, use_crc32, h);
                assert(io.received().subrange(0, r_offer_end.len() as int) =~= r_offer_end);
                lemma_offers_more_received(
                    r_offer_end,
                    io.received(),
                    zheader_entries(received@).push(h),
                    raws.push(t),
                    offer_at.push(r_header.len()),
                    crcs.push(use_crc32),
                );
                raws = raws.push(t);
                offer_at = offer_at.push(r_header.len());
                crcs = crcs.push(use_crc32);
                assert(zheader_entries(received@.push(file_header)) =~= zheader_entries(received@).push(h));
                assert(old(sink).announced() + zheader_entries(received@).push(h) =~= (old(sink).announced()
                    + zheader_entries(received@)).push(h));
            }
            received.push(file_header);
        } else if header.frame_type == ZFrameType::ZsInit {
            let use_crc32 = header.encoding == ZHeaderEncoding::Bin32;
            let ghost r_attn = io.received();
            let frame = match read_zmodem_data(io, use_crc32, ZMODEM_ATTENTION_MAX_BYTES) {
                Ok(f) => f,
                Err(e) => {
                    proof {
                        if rel {
                            let t3 = bytes_read(after_header, *io);
                            lemma_take_rest(after_header.incoming(), t3, io.incoming());
                            lemma_dispatch_zsinit(bound, hdr, after_header.incoming(), t3, io.incoming(), hs0, rf);
                            if data_is_terminal(data_scan(data_start(), t3, use_crc32, ZMODEM_ATTENTION_MAX_BYTES as nat)) {
                                assert(t3.len() > 0);
                            }
                        }
                    }
                    return Err(e);
                },
            };
            proof {
                if rel {
                    let t3 = bytes_read(after_header, *io);
                    lemma_take_rest(after_header.incoming(), t3, io.incoming());
                    assert(t3.len() > 0);
                    lemma_dispatch_zsinit(bound, hdr, after_header.incoming(), t3, io.incoming(), hs0, rf);
                }
            }
            proof {
                lemma_runs_more_received(
                    sink.written(),
                    sink.file_starts(),
                    base,
                    r_attn,
                    io.received(),
                    runs,
                    offsets,
                    zheader_sizes(received@),
                );
                lemma_offers_more_received(r_attn, io.received(), zheader_entries(received@), raws, offer_at, crcs);
            }
            if frame.end != ZDataEnd::EndWithAck {
                return Err(ModemTransferError::UnexpectedFrame);
            }
            let ghost sent_before = io.sent();
            match write_zheader(io, ZFrameType::ZAck, position_header(1)) {
                Ok(()) => {},
                Err(e) => return Err(e),
            }
            proof {
                if rel {
                    let cur = zrecv_sim(io.incoming(), hs0, rf);
                    assert(cur0 == zrecv_after(zheader_at(ZFrameType::ZAck, 1), Seq::empty(), cur));
                    assert(io.sent() == sent_before + zheader_at(ZFrameType::ZAck, 1));
                    assert(sent0 + total.sent =~= io.sent() + cur.sent);
                }
            }
        } else if header.frame_type == ZFrameType::ZFin {
            proof {
                if rel {
                    lemma_dispatch_other(bound, hdr, io.incoming(), hs0, rf);
                }
            }
            let ghost r_end = io.received();
            match finish_zmodem_receive(io) {
                Ok(()) => {},
                Err(e) => return Err(e),
            }
            proof {
                lemma_runs_more_received(
                    sink.written(),
                    sink.file_starts(),
                    base,
                    r_end,
                    io.received(),
                    runs,
                    offsets,
                    zheader_sizes(received@),
                );
                lemma_offers_more_received(r_end, io.received(), zheader_entries(received@), raws, offer_at, crcs);
                assert(files_from_runs(
                    sink.written(),
                    sink.file_starts(),
                    old(sink).file_starts().len() as int,
                    io.received(),
                    runs,
                    offsets,
                    zheader_sizes(received@),
                ));
                assert(files_came_from_runs(
                    sink.written(),
                    sink.file_starts(),
                    old(sink).file_starts().len() as int,
                    io.received(),
                    zheader_sizes(received@),
                ));
            }
            return Ok(received);
        } else if header.frame_type == ZFrameType::ZAbort || header.frame_type
            == ZFrameType::ZCan {
            proof {
                if rel {
                    lemma_dispatch_other(bound, hdr, io.incoming(), hs0, rf);
                }
            }
            return Err(ModemTransferError::Cancelled);
        } else {
            proof {
                if rel {
                    lemma_dispatch_other(bound, hdr, io.incoming(), hs0, rf);
                }
            }
        }
    }
}


/// Every proper prefix of a hex header as sent, up to its line end, holds
/// no header yet: the prefix parser asks for more.
pub proof fn lemma_hex_header_proper_prefix(t: ZFrameType, position: Seq<u8>, include_xon: bool, k: nat)
    requires
        position.len() == 4,
        k < 20,
    ensures
        spec_header_prefix(spec_encode_hex_header(t, position, include_xon).take(k as int)) == Ok::<
            Option<(ZFrameType, Seq<u8>, ZHeaderEncoding)>,
            ModemError,
        >(None),
{
    lemma_hex_header_no_early_stop(t, position, include_xon, k);
}

/// Input without a ZPAD byte holds no header yet: the prefix parser asks
/// for more.
pub proof fn lemma_header_prefix_without_pad(bytes: Seq<u8>)
    requires
        forall|i: int| 0 <= i < bytes.len() ==> #[trigger] bytes[i] != ZPAD,
    ensures
        spec_header_prefix(bytes) == Ok::<Option<(ZFrameType, Seq<u8>, ZHeaderEncoding)>, ModemError>(
            None,
        ),
    decreases bytes.len(),
{
    lemma_scan_without_pad(bytes);
}

proof fn lemma_scan_without_pad(bytes: Seq<u8>)
    requires
        forall|i: int| 0 <= i < bytes.len() ==> #[trigger] bytes[i] != ZPAD,
    ensures
        header_scan(HeaderScan::Searching, bytes) == HeaderScan::Searching,
    decreases bytes.len(),
{
    if bytes.len() > 0 {
        let d = bytes.drop_last();
        assert forall|i: int| 0 <= i < d.len() implies #[trigger] d[i] != ZPAD by {
            assert(d[i] == bytes[i]);
        }
        lemma_scan_without_pad(d);
        assert(bytes.last() == bytes[bytes.len() - 1]);
    }
}

/// A prefix of a hex header as sent never reads to an error or to another
/// header: the prefix parser asks for more, or gives that very header.
pub proof fn lemma_hex_header_prefix(t: ZFrameType, position: Seq<u8>, include_xon: bool, k: nat)
    requires
        position.len() == 4,
        k <= spec_encode_hex_header(t, position, include_xon).len(),
    ensures
        ({
            let r = spec_header_prefix(spec_encode_hex_header(t, position, include_xon).take(k as int));
            r == Ok::<Option<(ZFrameType, Seq<u8>, ZHeaderEncoding)>, ModemError>(None) || r == Ok::<
                Option<(ZFrameType, Seq<u8>, ZHeaderEncoding)>,
                ModemError,
            >(Some((t, position, ZHeaderEncoding::Hex)))
        }),
{
    let e = spec_encode_hex_header(t, position, include_xon);
    let pre = e.take(k as int);
    let post = e.subrange(k as int, e.len() as int);
    assert(pre + post =~= e);
    lemma_hex_header_read_back(t, position, include_xon);
    if is_terminal(header_scan(HeaderScan::Searching, pre)) {
        lemma_header_scan_terminal(HeaderScan::Searching, pre, post);
    }
}

/// Looks for a complete header at the front of `bytes`: `None` when the
/// bytes end first, the protocol error when the header is malformed.
pub fn parse_zmodem_header_prefix(bytes: &[u8]) -> (r: Result<Option<ZHeader>, ModemError>)
    ensures
        match (r, spec_header_prefix(bytes@)) {
            (Ok(Some(h)), Ok(Some(v))) => (h.frame_type, h.position@, h.encoding) == v,
            (Ok(None), Ok(None)) => true,
            (Err(e), Err(f)) => e == f,
            _ => false,
        },
{
    let mut input: Vec<u8> = Vec::new();
    input.extend_from_slice(bytes);
    let mut io = MemoryModemIo::with_input(input);
    let ghost start = io;
    let result = read_zmodem_header(&mut io);
    proof {
        let t = bytes_read(start, io);
        assert(start.received().len() == 0);
        assert(bytes@ == t + io.incoming());
        lemma_memory_io_exhausted(io);
        lemma_header_scan_no_timeout(t);
        if is_terminal(header_scan(HeaderScan::Searching, t)) {
            lemma_header_scan_terminal(HeaderScan::Searching, t, io.incoming());
        } else {
            assert(io.incoming().len() == 0);
            assert(bytes@ =~= t);
        }
    }
    match result {
        Ok(header) => Ok(Some(header)),
        Err(ModemTransferError::Timeout) => Ok(None),
        Err(ModemTransferError::Protocol(error)) => Err(error),
        Err(_) => Err(ModemError::InvalidMarker),
    }
}

} // verus!
