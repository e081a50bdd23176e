//! XMODEM and YMODEM transfers over a `ModemIo` channel.
use vstd::prelude::*;

use crate::bytes::repeat;
use crate::error::{ModemError, ModemTransferError};
use crate::text::spec_utf8_lossy;
use crate::io::{
    bytes_read, channel_error, consumed_in_order, file_content, lemma_channel_error_earlier,
    lemma_read_none, lemma_read_start, lemma_read_step, lemma_byte_reader_never_fails, write_outcome, ByteReader, ModemIo, ModemRead, ModemWrite,
};
use crate::xymodem::{
    block_view, spec_block0, spec_parse_block0, spec_valid_file_name, text_bytes, lemma_block_marker_round_trip, lemma_checksum_block_round_trip,
    lemma_crc_block_round_trip, padded_payload, spec_block_len, spec_block_marker,
    spec_block_size_from_marker, spec_encode_checksum, spec_encode_crc,
    spec_parse_checksum, spec_parse_crc, XyBlock, XyBlockSize, YmodemFileHeader, ACK, CAN, CPMEOF,
    EOT, NAK, WANT_CRC,
};

verus! {

pub const XYMODEM_TIMEOUT_MS: u64 = 10000;

pub const XYMODEM_RETRIES: usize = 10;

/// The block size an XMODEM upload uses.
#[derive(Clone, Copy, Debug, Eq, PartialEq, Structural)]
pub enum XmodemBlockMode {
    Bytes128,
    Bytes1024,
}

/// The block size of an XMODEM upload mode.
pub open spec fn mode_block_size(mode: XmodemBlockMode) -> XyBlockSize {
    match mode {
        XmodemBlockMode::Bytes128 => XyBlockSize::Bytes128,
        XmodemBlockMode::Bytes1024 => XyBlockSize::Bytes1024,
    }
}

impl XmodemBlockMode {
    pub fn block_size(self) -> (r: XyBlockSize)
        ensures
            r == mode_block_size(self),
    {
        match self {
            XmodemBlockMode::Bytes128 => XyBlockSize::Bytes128,
            XmodemBlockMode::Bytes1024 => XyBlockSize::Bytes1024,
        }
    }
}

/// A file to upload with YMODEM, held in memory.
#[derive(Clone, Debug, Eq, PartialEq)]
pub struct YmodemSendEntry {
    pub file_name: String,
    pub file_size: u64,
    pub bytes: Vec<u8>,
}

/// A file to upload with YMODEM, read from `reader`.
#[derive(Debug)]
pub struct YmodemSendStreamEntry<R> {
    pub file_name: String,
    pub file_size: u64,
    pub reader: R,
}

/// `s` repeated `k` times.
pub open spec fn repeat_seq(s: Seq<u8>, k: nat) -> Seq<u8>
    decreases k,
{
    if k == 0 {
        Seq::empty()
    } else {
        repeat_seq(s, (k - 1) as nat) + s
    }
}

/// Channel operations that only read leave the output alone and never add input.
pub open spec fn reads_only<I: ModemIo>(before: I, after: I) -> bool {
    &&& after.sent() == before.sent()
    &&& after.pending() <= before.pending()
}

/// The encoded form of a block as sent.
pub open spec fn encoded_block(number: u8, size: XyBlockSize, payload: Seq<u8>, use_crc: bool) -> Seq<
    u8,
> {
    if use_crc {
        spec_encode_crc(number, size, padded_payload(size, payload))
    } else {
        spec_encode_checksum(number, size, padded_payload(size, payload))
    }
}

fn write_byte<I: ModemIo>(io: &mut I, byte: u8) -> (r: Result<(), ModemTransferError>)
    ensures
        final(io).received() == old(io).received(),
        final(io).incoming() == old(io).incoming(),
        final(io).pending() <= old(io).pending(),
        r is Ok ==> final(io).sent() == old(io).sent().push(byte),
        r is Err ==> final(io).sent() == old(io).sent(),
        write_outcome(*old(io), *final(io), 1, r),
        final(io).can_read() == old(io).can_read(),
        final(io).read_failure() == old(io).read_failure(),
        old(io).reliable() ==> r is Ok && final(io).reliable(),
{
    let mut one: Vec<u8> = Vec::new();
    one.push(byte);
    let r = io.write_all(one.as_slice());
    assert(old(io).sent() + one@ =~= old(io).sent().push(byte));
    r
}

/// Expecting `expected` on a reliable channel whose unread input is
/// `input` (`rf` its read error): the expected byte succeeds; CAN CAN
/// cancels; CAN and another byte, or any other byte, is unexpected.
pub open spec fn expect_sim(input: Seq<u8>, expected: u8, rf: ModemTransferError) -> Result<(), ModemTransferError> {
    if input.len() == 0 {
        Err(rf)
    } else if input[0] == expected {
        Ok(())
    } else if input[0] == CAN {
        if input.len() < 2 {
            Err(rf)
        } else if input[1] == CAN {
            Err(ModemTransferError::Cancelled)
        } else {
            Err(ModemTransferError::UnexpectedByte(CAN))
        }
    } else {
        Err(ModemTransferError::UnexpectedByte(input[0]))
    }
}

/// What reading `t` while expecting `expected` gives: the expected byte
/// succeeds; CAN CAN cancels; CAN and another byte, or any other byte, is
/// unexpected; a read that fails ends it with the channel's error.
pub open spec fn expect_outcome<I: ModemIo>(
    t: Seq<u8>,
    expected: u8,
    r: Result<(), ModemTransferError>,
    after: I,
) -> bool {
    match r {
        Ok(()) => t == seq![expected],
        Err(e) => {
            ||| (t.len() == 1 && t[0] != expected && t[0] != CAN && e
                == ModemTransferError::UnexpectedByte(t[0]))
            ||| (expected != CAN && t == seq![CAN, CAN] && e == ModemTransferError::Cancelled)
            ||| (expected != CAN && t.len() == 2 && t[0] == CAN && t[1] != CAN && e
                == ModemTransferError::UnexpectedByte(CAN))
            ||| ((t.len() == 0 || (expected != CAN && t == seq![CAN])) && !after.can_read() && e
                == after.read_failure())
        },
    }
}

/// Reads one byte and expects `expected`; a double CAN means cancellation.
pub fn expect_byte_or_cancel<I: ModemIo>(io: &mut I, expected: u8) -> (r: Result<
    (),
    ModemTransferError,
>)
    ensures
        reads_only(*old(io), *final(io)),
        r is Ok ==> final(io).received() == old(io).received().push(expected),
        consumed_in_order(*old(io), *final(io)),
        expect_outcome(bytes_read(*old(io), *final(io)), expected, r, *final(io)),
        r matches Err(e) ==> channel_error(*old(io), *final(io), e),
        old(io).reliable() ==> final(io).reliable() && final(io).read_failure() == old(io).read_failure()
            && r == expect_sim(old(io).incoming(), expected, old(io).read_failure())
            && final(io).sent() == old(io).sent(),
{
    let ghost start = *io;
    let byte = match io.read_byte(XYMODEM_TIMEOUT_MS) {
        Ok(b) => b,
        Err(e) => {
            assert(bytes_read(start, *io) =~= Seq::<u8>::empty());
            assert(io.received().subrange(0, start.received().len() as int) =~= io.received());
            return Err(e);
        },
    };
    let ghost first = *io;
    proof {
        assert(bytes_read(start, first) =~= seq![byte]);
        assert(first.received().subrange(0, start.received().len() as int) =~= start.received());
        assert(start.incoming() =~= seq![byte] + first.incoming());
    }
    if byte == expected {
        return Ok(());
    }
    if byte == CAN {
        match io.read_byte(XYMODEM_TIMEOUT_MS) {
            Ok(next) => {
                proof {
                    assert(bytes_read(start, *io) =~= seq![byte, next]);
                    assert(io.received().subrange(0, start.received().len() as int) =~= start.received());
                    assert(start.incoming() =~= seq![byte, next] + io.incoming());
                }
                if next == CAN {
                    Err(ModemTransferError::Cancelled)
                } else {
                    Err(ModemTransferError::UnexpectedByte(CAN))
                }
            },
            Err(e) => Err(e),
        }
    } else {
        Err(ModemTransferError::UnexpectedByte(byte))
    }
}

/// A stretch of an X/YMODEM sender: how it ends, what it sends, and the
/// input it leaves unread.
pub ghost struct XySendSim<T> {
    pub result: Result<T, ModemTransferError>,
    pub sent: Seq<u8>,
    pub left: Seq<u8>,
}

/// `sim` after `bytes` were sent first.
pub open spec fn xy_send_after<T>(bytes: Seq<u8>, sim: XySendSim<T>) -> XySendSim<T> {
    XySendSim { sent: bytes + sim.sent, ..sim }
}

/// Sending `packet` until it is acknowledged, on a reliable channel whose
/// unread input is `input`, from try `attempt`; `rf` is the channel's read
/// error. ACK ends it; NAK (and, with `retry_on_c`, `C`) or CAN with another
/// byte sends it again; CAN CAN cancels; any other byte is unexpected; the
/// retry limit ends it with `Timeout`.
pub open spec fn xy_ack_sim(
    input: Seq<u8>,
    packet: Seq<u8>,
    retry_on_c: bool,
    attempt: nat,
    rf: ModemTransferError,
) -> XySendSim<()>
    decreases input.len(), XYMODEM_RETRIES - attempt,
{
    if attempt >= XYMODEM_RETRIES {
        XySendSim { result: Err(ModemTransferError::Timeout), sent: Seq::empty(), left: input }
    } else if input.len() == 0 {
        XySendSim { result: Err(rf), sent: packet, left: input }
    } else {
        let b = input[0];
        let rest = input.drop_first();
        if b == ACK {
            XySendSim { result: Ok(()), sent: packet, left: rest }
        } else if b == NAK || (retry_on_c && b == WANT_CRC) {
            xy_send_after(packet, xy_ack_sim(rest, packet, retry_on_c, attempt + 1, rf))
        } else if b == CAN {
            if rest.len() == 0 {
                XySendSim { result: Err(rf), sent: packet, left: rest }
            } else if rest[0] == CAN {
                XySendSim { result: Err(ModemTransferError::Cancelled), sent: packet, left: rest.drop_first() }
            } else {
                xy_send_after(packet, xy_ack_sim(rest.drop_first(), packet, retry_on_c, attempt + 1, rf))
            }
        } else {
            XySendSim { result: Err(ModemTransferError::UnexpectedByte(b)), sent: packet, left: rest }
        }
    }
}

/// Waiting for the receiver's start request from try `attempt`: `C` asks
/// for CRC blocks, NAK for checksums; CAN CAN cancels; other bytes (and CAN
/// with another byte) use up a try; the retry limit ends it with `Timeout`.
pub open spec fn xy_start_sim(input: Seq<u8>, attempt: nat, rf: ModemTransferError) -> XySendSim<bool>
    decreases input.len(), XYMODEM_RETRIES - attempt,
{
    if attempt >= XYMODEM_RETRIES {
        XySendSim { result: Err(ModemTransferError::Timeout), sent: Seq::empty(), left: input }
    } else if input.len() == 0 {
        XySendSim { result: Err(rf), sent: Seq::empty(), left: input }
    } else {
        let b = input[0];
        let rest = input.drop_first();
        if b == WANT_CRC {
            XySendSim { result: Ok(true), sent: Seq::empty(), left: rest }
        } else if b == NAK {
            XySendSim { result: Ok(false), sent: Seq::empty(), left: rest }
        } else if b == CAN {
            if rest.len() == 0 {
                XySendSim { result: Err(rf), sent: Seq::empty(), left: rest }
            } else if rest[0] == CAN {
                XySendSim { result: Err(ModemTransferError::Cancelled), sent: Seq::empty(), left: rest.drop_first() }
            } else {
                xy_start_sim(rest.drop_first(), attempt + 1, rf)
            }
        } else {
            xy_start_sim(rest, attempt + 1, rf)
        }
    }
}

/// Sending `data` as numbered blocks from block `number`, each up to a
/// whole block (and, with a limit `lim`, no more than it allows in all)
/// and padded, each until acknowledged; the result is how many data bytes
/// went out.
#[verifier::opaque]
pub open spec fn xy_blocks_sim(
    input: Seq<u8>,
    data: Seq<u8>,
    size: XyBlockSize,
    use_crc: bool,
    number: u8,
    lim: Option<nat>,
    rf: ModemTransferError,
) -> XySendSim<nat>
    decreases data.len(),
{
    let want = xy_want(size, lim);
    if data.len() == 0 || want == 0 {
        XySendSim { result: Ok(0), sent: Seq::empty(), left: input }
    } else {
        let c = data.take(if want < data.len() { want as int } else { data.len() as int });
        let st = xy_ack_sim(input, encoded_block(number, size, c, use_crc), true, 0, rf);
        match st.result {
            Err(e) => XySendSim { result: Err(e), sent: st.sent, left: st.left },
            Ok(_) => {
                let r = xy_blocks_sim(
                    st.left,
                    data.skip(c.len() as int),
                    size,
                    use_crc,
                    next_block_number(number),
                    xy_lim_after(lim, c.len()),
                    rf,
                );
                XySendSim {
                    result: match r.result {
                        Ok(k) => Ok(k + c.len()),
                        Err(e) => Err(e),
                    },
                    sent: st.sent + r.sent,
                    left: r.left,
                }
            },
        }
    }
}

/// How many bytes the next block may carry: a whole block, or less when
/// the limit leaves less.
pub open spec fn xy_want(size: XyBlockSize, lim: Option<nat>) -> nat {
    match lim {
        Some(l) => if l < spec_block_len(size) {
            l
        } else {
            spec_block_len(size)
        },
        None => spec_block_len(size),
    }
}

/// The limit left after `k` more bytes.
pub open spec fn xy_lim_after(lim: Option<nat>, k: nat) -> Option<nat> {
    match lim {
        Some(l) => Some((l - k) as nat),
        None => None,
    }
}

/// The limit left of `limit` after `total` bytes.
pub open spec fn xy_limit(limit: Option<u64>, total: nat) -> Option<nat> {
    match limit {
        Some(l) => Some((l - total) as nat),
        None => None,
    }
}

/// A run of blocks `total` that began after `sent0` is at `cur` after
/// `total` bytes and `sent` went out.
#[verifier::opaque]
pub open spec fn blocks_tracks(
    whole: XySendSim<nat>,
    cur: XySendSim<nat>,
    total: nat,
    sent0: Seq<u8>,
    sent: Seq<u8>,
) -> bool {
    &&& match (whole.result, cur.result) {
        (Ok(a), Ok(b)) => a == b + total,
        (Err(e), Err(f)) => e == f,
        _ => false,
    }
    &&& whole.left == cur.left
    &&& sent0 + whole.sent == sent + cur.sent
}

proof fn lemma_blocks_tracks_open(
    whole: XySendSim<nat>,
    cur: XySendSim<nat>,
    total: nat,
    sent0: Seq<u8>,
    sent: Seq<u8>,
)
    requires
        blocks_tracks(whole, cur, total, sent0, sent),
    ensures
        match (whole.result, cur.result) {
            (Ok(a), Ok(b)) => a == b + total,
            (Err(e), Err(f)) => e == f,
            _ => false,
        },
        whole.left == cur.left,
        sent0 + whole.sent == sent + cur.sent,
{
    reveal(blocks_tracks);
}

proof fn lemma_blocks_tracks_close(
    whole: XySendSim<nat>,
    cur: XySendSim<nat>,
    total: nat,
    sent0: Seq<u8>,
    sent: Seq<u8>,
)
    requires
        match (whole.result, cur.result) {
            (Ok(a), Ok(b)) => a == b + total,
            (Err(e), Err(f)) => e == f,
            _ => false,
        },
        whole.left == cur.left,
        sent0 + whole.sent == sent + cur.sent,
    ensures
        blocks_tracks(whole, cur, total, sent0, sent),
{
    reveal(blocks_tracks);
}

/// One step of sending blocks: no data or no room left ends it; otherwise
/// the next chunk goes out until acknowledged, then the rest.
proof fn lemma_blocks_step(
    input: Seq<u8>,
    data: Seq<u8>,
    size: XyBlockSize,
    use_crc: bool,
    number: u8,
    lim: Option<nat>,
    rf: ModemTransferError,
)
    ensures
        ({
            let sim = xy_blocks_sim(input, data, size, use_crc, number, lim, rf);
            let want = xy_want(size, lim);
            let c = data.take(if want < data.len() { want as int } else { data.len() as int });
            let st = xy_ack_sim(input, encoded_block(number, size, c, use_crc), true, 0, rf);
            let r = xy_blocks_sim(
                st.left,
                data.skip(c.len() as int),
                size,
                use_crc,
                next_block_number(number),
                xy_lim_after(lim, c.len()),
                rf,
            );
            &&& (data.len() == 0 || want == 0) ==> sim == (XySendSim { result: Ok(0nat), sent: Seq::empty(), left: input })
            &&& (data.len() > 0 && want > 0) ==> match st.result {
                Err(e) => sim == (XySendSim::<nat> { result: Err(e), sent: st.sent, left: st.left }),
                Ok(_) => sim == (XySendSim {
                    result: match r.result {
                        Ok(k) => Ok(k + c.len()),
                        Err(e) => Err(e),
                    },
                    sent: st.sent + r.sent,
                    left: r.left,
                }),
            }
        }),
{
    reveal_with_fuel(xy_blocks_sim, 1);
}

/// An XMODEM upload of `data`: the start request, the blocks (of the
/// mode's size, CRC or checksum as the receiver asked), then EOT until
/// acknowledged.
pub open spec fn xmodem_send_sim(input: Seq<u8>, data: Seq<u8>, size: XyBlockSize, rf: ModemTransferError) -> XySendSim<nat> {
    let start = xy_start_sim(input, 0, rf);
    match start.result {
        Err(e) => XySendSim { result: Err(e), sent: Seq::empty(), left: start.left },
        Ok(crc) => {
            let blocks = xy_blocks_sim(start.left, data, size, crc, 1, None, rf);
            match blocks.result {
                Err(e) => XySendSim { result: Err(e), sent: blocks.sent, left: blocks.left },
                Ok(n) => {
                    let eot = xy_ack_sim(blocks.left, seq![EOT], false, 0, rf);
                    XySendSim {
                        result: match eot.result {
                            Ok(_) => Ok(n),
                            Err(e) => Err(e),
                        },
                        sent: blocks.sent + eot.sent,
                        left: eot.left,
                    }
                },
            }
        },
    }
}

/// Why waiting for a start request after reading `t` ends in `e`: CAN CAN
/// cancels, the retries ran out, or a read failed.
pub open spec fn start_wait_error<I: ModemIo>(t: Seq<u8>, e: ModemTransferError, after: I) -> bool {
    ||| (e == ModemTransferError::Cancelled && t.len() >= 2 && t[t.len() - 2] == CAN && t.last()
        == CAN)
    ||| (e == ModemTransferError::Timeout && t.len() >= XYMODEM_RETRIES)
    ||| (!after.can_read() && e == after.read_failure())
}

/// Waits for the receiver's start request: `C` asks for CRC blocks (`true`),
/// NAK for checksum blocks (`false`).
pub fn wait_for_xymodem_start<I: ModemIo>(io: &mut I) -> (r: Result<bool, ModemTransferError>)
    ensures
        reads_only(*old(io), *final(io)),
        r matches Ok(crc) ==> final(io).received().len() > 0 && final(io).received().last() == (
        if crc {
            WANT_CRC
        } else {
            NAK
        }),
        consumed_in_order(*old(io), *final(io)),
        r matches Err(e) ==> start_wait_error(bytes_read(*old(io), *final(io)), e, *final(io)),
        old(io).reliable() ==> ({
            let sim = xy_start_sim(old(io).incoming(), 0, old(io).read_failure());
            &&& final(io).reliable() && final(io).read_failure() == old(io).read_failure()
            &&& r == sim.result
            &&& final(io).incoming() == sim.left
        }),
{
    proof {
        lemma_read_start(*io);
    }
    let mut attempt: usize = 0;
    while attempt < XYMODEM_RETRIES
        invariant
            attempt <= XYMODEM_RETRIES,
            reads_only(*old(io), *io),
            consumed_in_order(*old(io), *io),
            bytes_read(*old(io), *io).len() >= attempt,
            old(io).reliable() ==> io.reliable() && io.read_failure() == old(io).read_failure()
                && xy_start_sim(old(io).incoming(), 0, old(io).read_failure()) == xy_start_sim(
                io.incoming(),
                attempt as nat,
                old(io).read_failure(),
            ),
        decreases XYMODEM_RETRIES - attempt,
    {
        let ghost before = *io;
        let byte = match io.read_byte(XYMODEM_TIMEOUT_MS) {
            Ok(b) => b,
            Err(e) => {
                proof {
                    lemma_read_none(*old(io), before, *io);
                }
                return Err(e);
            },
        };
        proof {
            lemma_read_step(*old(io), before, *io, byte);
        }
        if byte == WANT_CRC {
            return Ok(true);
        } else if byte == NAK {
            return Ok(false);
        } else if byte == CAN {
            let ghost mid = *io;
            match io.read_byte(XYMODEM_TIMEOUT_MS) {
                Ok(next) => {
                    proof {
                        lemma_read_step(*old(io), mid, *io, next);
                    }
                    if next == CAN {
                        return Err(ModemTransferError::Cancelled);
                    }
                },
                Err(e) => {
                    proof {
                        lemma_read_none(*old(io), mid, *io);
                    }
                    return Err(e);
                },
            }
        }
        attempt = attempt + 1;
    }
    Err(ModemTransferError::Timeout)
}

/// Why sending EOT from `sent0` ends in `e`: the channel refused a write or
/// a read failed, CAN CAN cancelled, another byte was unexpected, or every
/// try went unanswered.
pub open spec fn eot_wait_error<I: ModemIo>(sent0: Seq<u8>, after: I, e: ModemTransferError) -> bool {
    let got = after.received();
    ||| (exists|n: nat| #[trigger] after.write_refusal(n) == Some(e))
    ||| (!after.can_read() && e == after.read_failure())
    ||| (e == ModemTransferError::Cancelled && got.len() >= 2 && got[got.len() - 2] == CAN
        && got.last() == CAN)
    ||| (e matches ModemTransferError::UnexpectedByte(b) && got.len() > 0 && got.last() == b)
    ||| (e == ModemTransferError::Timeout && after.sent() == sent0 + repeat_seq(
        seq![EOT],
        XYMODEM_RETRIES as nat,
    ))
}

/// Sends EOT until the receiver acknowledges it.
pub fn finish_xymodem_send<I: ModemIo>(io: &mut I) -> (r: Result<(), ModemTransferError>)
    ensures
        final(io).pending() <= old(io).pending(),
        r is Ok ==> (exists|k: nat|
            1 <= k <= XYMODEM_RETRIES && final(io).sent() == old(io).sent() + repeat_seq(
                seq![EOT],
                k,
            )) && final(io).received().len() > 0 && final(io).received().last() == ACK,
        old(io).received().len() <= final(io).received().len(),
        r matches Err(e) ==> eot_wait_error(old(io).sent(), *final(io), e),
        r matches Err(e) ==> channel_error(*old(io), *final(io), e),
        old(io).reliable() ==> ({
            let sim = xy_ack_sim(old(io).incoming(), seq![EOT], false, 0, old(io).read_failure());
            &&& final(io).reliable() && final(io).read_failure() == old(io).read_failure()
            &&& r == sim.result
            &&& final(io).sent() == old(io).sent() + sim.sent
            &&& final(io).incoming() == sim.left
        }),
{
    let mut attempt: usize = 0;
    while attempt < XYMODEM_RETRIES
        invariant
            attempt <= XYMODEM_RETRIES,
            io.pending() <= old(io).pending(),
            io.sent() == old(io).sent() + repeat_seq(seq![EOT], attempt as nat),
            old(io).received().len() <= io.received().len(),
            attempt > 0 ==> old(io).received().len() < io.received().len(),
            old(io).reliable() ==> io.reliable() && io.read_failure() == old(io).read_failure() && ({
                let whole = xy_ack_sim(old(io).incoming(), seq![EOT], false, 0, old(io).read_failure());
                let cur = xy_ack_sim(io.incoming(), seq![EOT], false, attempt as nat, old(io).read_failure());
                &&& whole.result == cur.result
                &&& whole.left == cur.left
                &&& old(io).sent() + whole.sent == io.sent() + cur.sent
            }),
        decreases XYMODEM_RETRIES - attempt,
    {
        match write_byte(io, EOT) {
            Ok(()) => {},
            Err(e) => {
                assert(io.write_refusal(1) == Some(e));
                return Err(e);
            },
        }
        assert(io.sent() =~= old(io).sent() + repeat_seq(seq![EOT], (attempt + 1) as nat));
        let byte = match io.read_byte(XYMODEM_TIMEOUT_MS) {
            Ok(b) => b,
            Err(e) => return Err(e),
        };
        if byte == ACK {
            return Ok(());
        } else if byte == NAK {
        } else if byte == CAN {
            match io.read_byte(XYMODEM_TIMEOUT_MS) {
                Ok(next) => {
                    if next == CAN {
                        return Err(ModemTransferError::Cancelled);
                    }
                },
                Err(e) => return Err(e),
            }
        } else {
            return Err(ModemTransferError::UnexpectedByte(byte));
        }
        attempt = attempt + 1;
    }
    Err(ModemTransferError::Timeout)
}

/// Sends one block until the receiver acknowledges it.
pub fn send_xymodem_block<I: ModemIo>(
    io: &mut I,
    number: u8,
    block_size: XyBlockSize,
    payload: &[u8],
    use_crc: bool,
) -> (r: Result<(), ModemTransferError>)
    ensures
        final(io).pending() <= old(io).pending(),
        payload@.len() > spec_block_len(block_size) ==> (r matches Err(
            ModemTransferError::Protocol(ModemError::InvalidLength),
        )),
        r is Ok ==> (exists|k: nat|
            1 <= k <= XYMODEM_RETRIES && final(io).sent() == old(io).sent() + repeat_seq(
                encoded_block(number, block_size, payload@, use_crc),
                k,
            )) && final(io).received().len() > 0 && final(io).received().last() == ACK,
        old(io).received().len() <= final(io).received().len(),
        r matches Err(e) ==> if payload@.len() > spec_block_len(block_size) {
            e == ModemTransferError::Protocol(ModemError::InvalidLength)
        } else {
            channel_error(*old(io), *final(io), e)
        },
        old(io).reliable() && payload@.len() <= spec_block_len(block_size) ==> ({
            let sim = xy_ack_sim(
                old(io).incoming(),
                encoded_block(number, block_size, payload@, use_crc),
                true,
                0,
                old(io).read_failure(),
            );
            &&& final(io).reliable() && final(io).read_failure() == old(io).read_failure()
            &&& r == sim.result
            &&& final(io).sent() == old(io).sent() + sim.sent
            &&& final(io).incoming() == sim.left
        }),
{
    let block = match XyBlock::new(number, block_size, payload) {
        Ok(b) => b,
        Err(e) => return Err(ModemTransferError::Protocol(e)),
    };
    let encoded = if use_crc {
        block.encode_crc()
    } else {
        block.encode_checksum()
    };
    let ghost enc = encoded_block(number, block_size, payload@, use_crc);
    assert(encoded@ == enc);
    let mut attempt: usize = 0;
    while attempt < XYMODEM_RETRIES
        invariant
            attempt <= XYMODEM_RETRIES,
            encoded@ == enc,
            enc == encoded_block(number, block_size, payload@, use_crc),
            payload@.len() <= spec_block_len(block_size),
            io.pending() <= old(io).pending(),
            io.sent() == old(io).sent() + repeat_seq(enc, attempt as nat),
            old(io).received().len() <= io.received().len(),
            attempt > 0 ==> old(io).received().len() < io.received().len(),
            old(io).reliable() ==> io.reliable() && io.read_failure() == old(io).read_failure() && ({
                let whole = xy_ack_sim(old(io).incoming(), enc, true, 0, old(io).read_failure());
                let cur = xy_ack_sim(io.incoming(), enc, true, attempt as nat, old(io).read_failure());
                &&& whole.result == cur.result
                &&& whole.left == cur.left
                &&& old(io).sent() + whole.sent == io.sent() + cur.sent
            }),
        decreases XYMODEM_RETRIES - attempt,
    {
        match io.write_all(encoded.as_slice()) {
            Ok(()) => {},
            Err(e) => {
                assert(io.write_refusal(encoded@.len()) == Some(e));
                return Err(e);
            },
        }
        assert(io.sent() =~= old(io).sent() + repeat_seq(enc, (attempt + 1) as nat));
        let byte = match io.read_byte(XYMODEM_TIMEOUT_MS) {
            Ok(b) => b,
            Err(e) => return Err(e),
        };
        if byte == ACK {
            assert(io.sent() == old(io).sent() + repeat_seq(
                encoded_block(number, block_size, payload@, use_crc),
                (attempt + 1) as nat,
            ));
            return Ok(());
        } else if byte == NAK || byte == WANT_CRC {
        } else if byte == CAN {
            match io.read_byte(XYMODEM_TIMEOUT_MS) {
                Ok(next) => {
                    if next == CAN {
                        return Err(ModemTransferError::Cancelled);
                    }
                },
                Err(e) => return Err(e),
            }
        } else {
            return Err(ModemTransferError::UnexpectedByte(byte));
        }
        attempt = attempt + 1;
    }
    Err(ModemTransferError::Timeout)
}

/// Where an X/YMODEM block reader stands after the bytes it read.
pub ghost enum XyRead {
    /// More bytes are needed.
    Pending,
    /// A block (number, size, payload) was decoded.
    Block((u8, XyBlockSize, Seq<u8>)),
    /// End of transmission.
    EndOfTransmission,
    /// The bytes read are refused.
    Failed(ModemTransferError),
}

/// The length of a whole block that starts with `marker`.
pub open spec fn xy_frame_len(size: XyBlockSize, use_crc: bool) -> nat {
    3 + spec_block_len(size) + if use_crc {
        2nat
    } else {
        1nat
    }
}

/// How the block reader judges the bytes `t` it has read.
pub open spec fn xy_block_read(t: Seq<u8>, use_crc: bool) -> XyRead {
    if t.len() == 0 {
        XyRead::Pending
    } else {
        match spec_block_size_from_marker(t[0]) {
            None => XyRead::Failed(ModemTransferError::UnexpectedByte(t[0])),
            Some(size) => if t.len() < xy_frame_len(size, use_crc) {
                XyRead::Pending
            } else {
                match if use_crc {
                    spec_parse_crc(t)
                } else {
                    spec_parse_checksum(t)
                } {
                    Ok(v) => XyRead::Block(v),
                    Err(e) => XyRead::Failed(ModemTransferError::Protocol(e)),
                }
            },
        }
    }
}

/// How the packet reader (a block, EOT, or a cancel) judges the bytes `t`
/// it has read.
pub open spec fn xy_packet_read(t: Seq<u8>, use_crc: bool) -> XyRead {
    if t.len() == 0 {
        XyRead::Pending
    } else if t[0] == EOT {
        XyRead::EndOfTransmission
    } else if t[0] == CAN {
        if t.len() == 1 {
            XyRead::Pending
        } else if t[1] == CAN {
            XyRead::Failed(ModemTransferError::Cancelled)
        } else {
            XyRead::Failed(ModemTransferError::UnexpectedByte(CAN))
        }
    } else {
        xy_block_read(t, use_crc)
    }
}

/// The reader has read exactly one whole unit: a refused marker, or a whole
/// block.
pub open spec fn xy_block_consumed(t: Seq<u8>, use_crc: bool) -> bool {
    &&& t.len() >= 1
    &&& match spec_block_size_from_marker(t[0]) {
        None => t.len() == 1,
        Some(size) => t.len() == xy_frame_len(size, use_crc),
    }
}

/// How many bytes of `input` the block reader takes: a whole block after a
/// block marker, or any other byte alone; `None` when the input ends first.
pub open spec fn xy_block_take(input: Seq<u8>, use_crc: bool) -> Option<nat> {
    if input.len() == 0 {
        None
    } else {
        match spec_block_size_from_marker(input[0]) {
            None => Some(1),
            Some(size) => if input.len() >= xy_frame_len(size, use_crc) {
                Some(xy_frame_len(size, use_crc))
            } else {
                None
            },
        }
    }
}

/// How many bytes of `input` the packet reader takes: EOT alone, CAN and
/// the byte after it, a whole block after a block marker, or any other
/// byte alone; `None` when the input ends first.
pub open spec fn xy_packet_take(input: Seq<u8>, use_crc: bool) -> Option<nat> {
    if input.len() == 0 {
        None
    } else if input[0] == EOT {
        Some(1)
    } else if input[0] == CAN {
        if input.len() >= 2 {
            Some(2)
        } else {
            None
        }
    } else {
        match spec_block_size_from_marker(input[0]) {
            None => Some(1),
            Some(size) => if input.len() >= xy_frame_len(size, use_crc) {
                Some(xy_frame_len(size, use_crc))
            } else {
                None
            },
        }
    }
}

/// The packet reader has read exactly one whole unit.
pub open spec fn xy_packet_consumed(t: Seq<u8>, use_crc: bool) -> bool {
    if t.len() >= 1 && t[0] == EOT {
        t.len() == 1
    } else if t.len() >= 1 && t[0] == CAN {
        t.len() == 2
    } else {
        xy_block_consumed(t, use_crc)
    }
}

/// A block as `send_xymodem_block` sends it is read back by the block and
/// packet readers with the same trailer kind: its number, size and padded
/// payload.
pub proof fn lemma_xymodem_block_read_back(
    number: u8,
    size: XyBlockSize,
    payload: Seq<u8>,
    use_crc: bool,
)
    requires
        payload.len() <= spec_block_len(size),
    ensures
        xy_block_read(encoded_block(number, size, payload, use_crc), use_crc) == XyRead::Block(
            (number, size, padded_payload(size, payload)),
        ),
        xy_packet_read(encoded_block(number, size, payload, use_crc), use_crc) == XyRead::Block(
            (number, size, padded_payload(size, payload)),
        ),
{
    let p = padded_payload(size, payload);
    assert(p.len() == spec_block_len(size));
    lemma_block_marker_round_trip(size);
    if use_crc {
        lemma_crc_block_round_trip(number, size, p);
    } else {
        lemma_checksum_block_round_trip(number, size, p);
    }
    let e = encoded_block(number, size, payload, use_crc);
    assert(e[0] == spec_block_marker(size));
    assert(e.len() == xy_frame_len(size, use_crc));
}

/// The bytes of the units `units`, one after the other.
pub open spec fn concat_units(units: Seq<Seq<u8>>) -> Seq<u8>
    decreases units.len(),
{
    if units.len() == 0 {
        Seq::empty()
    } else {
        concat_units(units.drop_last()) + units.last()
    }
}

/// How the packet reader judged each of `units`.
pub open spec fn unit_reads(units: Seq<Seq<u8>>, use_crc: bool) -> Seq<XyRead> {
    Seq::new(units.len(), |i: int| xy_packet_read(units[i], use_crc))
}

/// A unit the packet reader took: a whole one, or what it got before a read
/// failed.
pub open spec fn unit_taken(u: Seq<u8>, use_crc: bool) -> bool {
    xy_packet_consumed(u, use_crc) || xy_packet_read(u, use_crc) is Pending
}

/// The block number that follows `n`.
pub open spec fn next_block_number(n: u8) -> u8 {
    if n == 255 {
        0
    } else {
        (n + 1) as u8
    }
}

/// A receiver's (expected block number, data kept) after one more packet:
/// the block it expects is kept, up to the expected size; anything else
/// (a repeated or stray block, a refused unit) keeps nothing.
pub open spec fn xy_accept(s: (u8, Seq<u8>), r: XyRead, expected_size: Option<u64>) -> (u8, Seq<u8>) {
    match r {
        XyRead::Block(v) => if v.0 == s.0 {
            let keep = match expected_size {
                Some(size) => if size - s.1.len() < v.2.len() {
                    size - s.1.len()
                } else {
                    v.2.len() as int
                },
                None => v.2.len() as int,
            };
            (next_block_number(s.0), s.1 + v.2.take(keep))
        } else {
            s
        },
        _ => s,
    }
}

/// What a receiver keeps from the packets `rs`, starting at block 1.
pub open spec fn xy_received_data(rs: Seq<XyRead>, expected_size: Option<u64>) -> (u8, Seq<u8>)
    decreases rs.len(),
{
    if rs.len() == 0 {
        (1u8, Seq::empty())
    } else {
        xy_accept(xy_received_data(rs.drop_last(), expected_size), rs.last(), expected_size)
    }
}

/// `after` received, past `before`, the units `units` (and maybe more), the
/// last one an EOT.
pub open spec fn received_units(
    before: Seq<u8>,
    after: Seq<u8>,
    units: Seq<Seq<u8>>,
    use_crc: bool,
) -> bool {
    let n = before.len() + concat_units(units).len();
    &&& units.len() > 0
    &&& after.len() >= n
    &&& after.subrange(0, n as int) == before + concat_units(units)
    &&& forall|i: int| 0 <= i < units.len() ==> unit_taken(#[trigger] units[i], use_crc)
    &&& unit_reads(units, use_crc).last() is EndOfTransmission
}

/// The blocks a sender sends for `chunks`, numbered from 1, as units.
pub open spec fn block_units(chunks: Seq<Seq<u8>>, size: XyBlockSize, use_crc: bool) -> Seq<Seq<u8>> {
    Seq::new(
        chunks.len(),
        |i: int| encoded_block(((i + 1) % 256) as u8, size, chunks[i], use_crc),
    )
}

/// The chunks, each padded to a whole block, one after the other.
pub open spec fn padded_chunks(chunks: Seq<Seq<u8>>, size: XyBlockSize) -> Seq<u8>
    decreases chunks.len(),
{
    if chunks.len() == 0 {
        Seq::empty()
    } else {
        padded_chunks(chunks.drop_last(), size) + padded_payload(size, chunks.last())
    }
}

/// What a receiver keeps of `data` when it expects `expected_size` bytes.
pub open spec fn kept_data(data: Seq<u8>, expected_size: Option<u64>) -> Seq<u8> {
    match expected_size {
        Some(s) => if s < data.len() {
            data.take(s as int)
        } else {
            data
        },
        None => data,
    }
}

proof fn lemma_kept_step(before: Seq<u8>, v: Seq<u8>, expected_size: Option<u64>, n: u8, size: XyBlockSize)
    ensures
        xy_accept((n, kept_data(before, expected_size)), XyRead::Block((n, size, v)), expected_size)
            == (next_block_number(n), kept_data(before + v, expected_size)),
{
    let kept = kept_data(before, expected_size);
    match expected_size {
        Some(s) => {
            if s < before.len() {
                assert(v.take(0) =~= Seq::<u8>::empty());
                assert(kept + v.take(0) =~= (before + v).take(s as int));
            } else if s - before.len() < v.len() {
                assert(kept + v.take(s - before.len()) =~= (before + v).take(s as int));
            } else {
                assert(v.take(v.len() as int) =~= v);
            }
        },
        None => {
            assert(v.take(v.len() as int) =~= v);
        },
    }
}

#[verifier::rlimit(60)]
proof fn lemma_last_block_unit(chunks: Seq<Seq<u8>>, size: XyBlockSize, use_crc: bool)
    requires
        chunks.len() > 0,
        chunks.last().len() <= spec_block_len(size),
    ensures
        unit_reads(block_units(chunks, size, use_crc), use_crc).drop_last() == unit_reads(
            block_units(chunks.drop_last(), size, use_crc),
            use_crc,
        ),
        unit_reads(block_units(chunks, size, use_crc), use_crc).last() == XyRead::Block(
            ((chunks.len() % 256) as u8, size, padded_payload(size, chunks.last())),
        ),
{
    let us = block_units(chunks, size, use_crc);
    let rs = unit_reads(us, use_crc);
    let prev = chunks.drop_last();
    let ps = block_units(prev, size, use_crc);
    assert forall|i: int| 0 <= i < prev.len() implies #[trigger] us[i] == ps[i] by {
        assert(prev[i] == chunks[i]);
    }
    assert(rs.drop_last() =~= unit_reads(ps, use_crc));
    let n = (chunks.len() % 256) as u8;
    assert(us.last() == encoded_block(n, size, chunks.last(), use_crc));
    lemma_xymodem_block_read_back(n, size, chunks.last(), use_crc);
}

#[verifier::rlimit(100)]
proof fn lemma_block_units_in_order(
    chunks: Seq<Seq<u8>>,
    size: XyBlockSize,
    use_crc: bool,
    expected_size: Option<u64>,
)
    requires
        forall|i: int| 0 <= i < chunks.len() ==> #[trigger] chunks[i].len() <= spec_block_len(size),
    ensures
        xy_received_data(unit_reads(block_units(chunks, size, use_crc), use_crc), expected_size)
            == (((chunks.len() + 1) % 256) as u8, kept_data(padded_chunks(chunks, size), expected_size)),
    decreases chunks.len(),
{
    let rs = unit_reads(block_units(chunks, size, use_crc), use_crc);
    if chunks.len() == 0 {
        assert(rs.len() == 0);
        assert(kept_data(Seq::<u8>::empty(), expected_size) =~= Seq::<u8>::empty());
    } else {
        let prev = chunks.drop_last();
        assert(chunks.last() == chunks[chunks.len() - 1]);
        assert forall|i: int| 0 <= i < prev.len() implies #[trigger] prev[i].len() <= spec_block_len(size) by {
            assert(prev[i] == chunks[i]);
        }
        lemma_block_units_in_order(prev, size, use_crc, expected_size);
        lemma_last_block_unit(chunks, size, use_crc);
        let n = (chunks.len() % 256) as u8;
        assert(((prev.len() + 1) % 256) as u8 == n);
        lemma_kept_step(padded_chunks(prev, size), padded_payload(size, chunks.last()), expected_size, n, size);
        assert(next_block_number(n) == ((chunks.len() + 1) % 256) as u8);
    }
}

/// Blocks received in order, each once, and then EOT, give the receiver the
/// chunks they were made of, padded to whole blocks and cut to the expected
/// size.
pub proof fn lemma_xymodem_receive_in_order(
    chunks: Seq<Seq<u8>>,
    size: XyBlockSize,
    use_crc: bool,
    expected_size: Option<u64>,
)
    requires
        forall|i: int| 0 <= i < chunks.len() ==> #[trigger] chunks[i].len() <= spec_block_len(size),
    ensures
        ({
            let units = block_units(chunks, size, use_crc).push(seq![EOT]);
            &&& unit_reads(units, use_crc).last() is EndOfTransmission
            &&& forall|i: int| 0 <= i < units.len() ==> unit_taken(#[trigger] units[i], use_crc)
            &&& xy_received_data(unit_reads(units, use_crc), expected_size).1 == kept_data(
                padded_chunks(chunks, size),
                expected_size,
            )
        }),
{
    let blocks = block_units(chunks, size, use_crc);
    let units = blocks.push(seq![EOT]);
    lemma_block_units_in_order(chunks, size, use_crc, expected_size);
    assert(unit_reads(units, use_crc).drop_last() =~= unit_reads(blocks, use_crc));
    assert(xy_packet_read(seq![EOT], use_crc) == XyRead::EndOfTransmission);
    assert forall|i: int| 0 <= i < units.len() implies unit_taken(#[trigger] units[i], use_crc) by {
        if i < blocks.len() {
            let n = ((i + 1) % 256) as u8;
            lemma_xymodem_block_read_back(n, size, chunks[i], use_crc);
            lemma_block_marker_round_trip(size);
            assert(units[i] == encoded_block(n, size, chunks[i], use_crc));
            assert(units[i][0] == spec_block_marker(size));
            assert(units[i][0] != EOT && units[i][0] != CAN);
        }
    }
}

/// What a sender puts on the wire for `chunks`: block `i + 1` of each chunk,
/// sent `ks[i]` times (the first try and its retries).
pub open spec fn sent_blocks(chunks: Seq<Seq<u8>>, ks: Seq<nat>, size: XyBlockSize, use_crc: bool) -> Seq<
    u8,
>
    decreases chunks.len(),
{
    if chunks.len() == 0 || ks.len() != chunks.len() {
        Seq::empty()
    } else {
        sent_blocks(chunks.drop_last(), ks.drop_last(), size, use_crc) + repeat_seq(
            encoded_block((chunks.len() % 256) as u8, size, chunks.last(), use_crc),
            ks.last(),
        )
    }
}

/// Each chunk is a non-empty part of a block, sent between once and the
/// retry limit.
pub open spec fn chunks_sendable(chunks: Seq<Seq<u8>>, ks: Seq<nat>, size: XyBlockSize) -> bool {
    &&& chunks.len() == ks.len()
    &&& forall|i: int|
        0 <= i < chunks.len() ==> 0 < #[trigger] chunks[i].len() <= spec_block_len(size)
    &&& forall|i: int| 0 <= i < ks.len() ==> 1 <= #[trigger] ks[i] <= XYMODEM_RETRIES
}

/// Each block sent once.
pub open spec fn sent_once(n: nat) -> Seq<nat> {
    Seq::new(n, |i: int| 1nat)
}

proof fn lemma_sent_once_is_units(chunks: Seq<Seq<u8>>, size: XyBlockSize, use_crc: bool)
    ensures
        sent_blocks(chunks, sent_once(chunks.len()), size, use_crc) == concat_units(
            block_units(chunks, size, use_crc),
        ),
    decreases chunks.len(),
{
    if chunks.len() > 0 {
        let prev = chunks.drop_last();
        lemma_sent_once_is_units(prev, size, use_crc);
        assert(sent_once(chunks.len()).drop_last() =~= sent_once(prev.len()));
        assert(block_units(chunks, size, use_crc).drop_last() =~= block_units(prev, size, use_crc));
        let e = encoded_block((chunks.len() % 256) as u8, size, chunks.last(), use_crc);
        assert(repeat_seq(e, 1) == repeat_seq(e, 0) + e);
        assert(repeat_seq(e, 0) + e =~= e);
    }
}

/// What the X/YMODEM sender puts on the wire for the chunks it read, when
/// each block is acknowledged on the first try, followed by EOT, is read by
/// the receiver block by block, and the receiver keeps the chunks padded to
/// whole blocks and cut to the size it expects.
pub proof fn lemma_xymodem_send_receive(
    chunks: Seq<Seq<u8>>,
    size: XyBlockSize,
    use_crc: bool,
    expected_size: Option<u64>,
)
    requires
        chunks_sendable(chunks, sent_once(chunks.len()), size),
    ensures
        ({
            let units = block_units(chunks, size, use_crc).push(seq![EOT]);
            &&& concat_units(units) == sent_blocks(chunks, sent_once(chunks.len()), size, use_crc)
                + seq![EOT]
            &&& unit_reads(units, use_crc).last() is EndOfTransmission
            &&& forall|i: int| 0 <= i < units.len() ==> unit_taken(#[trigger] units[i], use_crc)
            &&& xy_received_data(unit_reads(units, use_crc), expected_size).1 == kept_data(
                padded_chunks(chunks, size),
                expected_size,
            )
        }),
{
    let blocks = block_units(chunks, size, use_crc);
    let units = blocks.push(seq![EOT]);
    lemma_sent_once_is_units(chunks, size, use_crc);
    assert(units.drop_last() =~= blocks);
    assert forall|i: int| 0 <= i < chunks.len() implies #[trigger] chunks[i].len() <= spec_block_len(size) by {
        assert(0 < chunks[i].len() <= spec_block_len(size));
    }
    lemma_xymodem_receive_in_order(chunks, size, use_crc, expected_size);
}

proof fn lemma_chunk_sent(
    chunks: Seq<Seq<u8>>,
    ks: Seq<nat>,
    chunk: Seq<u8>,
    k: nat,
    size: XyBlockSize,
    use_crc: bool,
)
    requires
        chunks_sendable(chunks, ks, size),
        0 < chunk.len() <= spec_block_len(size),
        1 <= k <= XYMODEM_RETRIES,
    ensures
        chunks_sendable(chunks.push(chunk), ks.push(k), size),
        concat_units(chunks.push(chunk)) == concat_units(chunks) + chunk,
        sent_blocks(chunks.push(chunk), ks.push(k), size, use_crc) == sent_blocks(chunks, ks, size, use_crc)
            + repeat_seq(encoded_block(((chunks.len() + 1) % 256) as u8, size, chunk, use_crc), k),
{
    let cs = chunks.push(chunk);
    let ns = ks.push(k);
    assert(cs.drop_last() =~= chunks);
    assert(ns.drop_last() =~= ks);
    assert forall|i: int| 0 <= i < cs.len() implies 0 < #[trigger] cs[i].len() <= spec_block_len(size) by {
        if i < chunks.len() {
            assert(cs[i] == chunks[i]);
        }
    }
    assert forall|i: int| 0 <= i < ns.len() implies 1 <= #[trigger] ns[i] <= XYMODEM_RETRIES by {
        if i < ks.len() {
            assert(ns[i] == ks[i]);
        }
    }
}

/// Two reads in a row read what they read, one after the other.
proof fn lemma_reads_compose<I: ModemIo>(a: I, b: I, c: I)
    requires
        consumed_in_order(a, b),
        consumed_in_order(b, c),
    ensures
        consumed_in_order(a, c),
        bytes_read(a, c) == bytes_read(a, b) + bytes_read(b, c),
{
    let n = a.received().len() as int;
    let m = b.received().len() as int;
    assert(c.received().subrange(0, m) == b.received());
    assert(bytes_read(a, c) =~= bytes_read(a, b) + bytes_read(b, c));
    assert(c.received().subrange(0, n) =~= b.received().subrange(0, n));
    assert(a.incoming() =~= bytes_read(a, c) + c.incoming());
}

/// Reads `count` bytes from the channel.
fn read_exact<I: ModemIo>(io: &mut I, count: usize) -> (r: Result<Vec<u8>, ModemTransferError>)
    ensures
        reads_only(*old(io), *final(io)),
        consumed_in_order(*old(io), *final(io)),
        r matches Ok(v) ==> v@.len() == count && final(io).received() == old(io).received()
            + v@ && (count > 0 ==> final(io).pending() < old(io).pending()),
        r matches Err(e) ==> bytes_read(*old(io), *final(io)).len() < count
            && !final(io).can_read() && e == final(io).read_failure(),
        old(io).reliable() ==> final(io).reliable() && final(io).read_failure() == old(
            io,
        ).read_failure() && (r is Err ==> final(io).incoming().len() == 0),
{
    let mut out: Vec<u8> = Vec::new();
    assert(old(io).received().subrange(0, old(io).received().len() as int) =~= old(io).received());
    while out.len() < count
        invariant
            out@.len() <= count,
            reads_only(*old(io), *io),
            consumed_in_order(*old(io), *io),
            io.received() == old(io).received() + out@,
            out@.len() > 0 ==> io.pending() < old(io).pending(),
            old(io).reliable() ==> io.reliable() && io.read_failure() == old(io).read_failure(),
        decreases count - out@.len(),
    {
        let ghost before = *io;
        let byte = match io.read_byte(XYMODEM_TIMEOUT_MS) {
            Ok(b) => b,
            Err(e) => {
                assert(bytes_read(*old(io), *io) =~= out@);
                return Err(e);
            },
        };
        out.push(byte);
        proof {
            assert(io.received() =~= old(io).received() + out@);
            assert(bytes_read(*old(io), *io) =~= out@);
            assert(bytes_read(*old(io), before) =~= out@.drop_last());
            assert(io.received().subrange(0, old(io).received().len() as int) =~= old(io).received());
            assert(old(io).incoming() =~= out@ + io.incoming());
        }
    }
    Ok(out)
}

/// One received unit: a data block or end of transmission.
pub enum XymodemPacket {
    Block(XyBlock),
    EndOfTransmission,
}

/// Reads a data block, or EOT.
pub fn read_xymodem_packet<I: ModemIo>(io: &mut I, use_crc: bool) -> (r: Result<
    XymodemPacket,
    ModemTransferError,
>)
    ensures
        reads_only(*old(io), *final(io)),
        r is Ok ==> final(io).pending() < old(io).pending(),
        r matches Ok(XymodemPacket::EndOfTransmission) ==> final(io).received() == old(
            io,
        ).received().push(EOT),
        r matches Ok(XymodemPacket::Block(b)) ==> exists|raw: Seq<u8>|
            final(io).received() == old(io).received() + raw && (if use_crc {
                spec_parse_crc(raw)
            } else {
                spec_parse_checksum(raw)
            }) == Ok::<(u8, XyBlockSize, Seq<u8>), ModemError>(block_view(b)),
        consumed_in_order(*old(io), *final(io)),
        ({
            let t = bytes_read(*old(io), *final(io));
            match r {
                Ok(XymodemPacket::Block(b)) => xy_packet_read(t, use_crc) == XyRead::Block(
                    block_view(b),
                ) && xy_packet_consumed(t, use_crc),
                Ok(XymodemPacket::EndOfTransmission) => xy_packet_read(t, use_crc)
                    == XyRead::EndOfTransmission && xy_packet_consumed(t, use_crc),
                Err(e) => (xy_packet_read(t, use_crc) == XyRead::Failed(e) && xy_packet_consumed(
                    t,
                    use_crc,
                )) || (xy_packet_read(t, use_crc) is Pending && !final(io).can_read()
                    && e == final(io).read_failure()),
            }
        }),
        old(io).reliable() ==> final(io).reliable() && final(io).read_failure() == old(io).read_failure()
            && match xy_packet_take(old(io).incoming(), use_crc) {
            Some(n) => bytes_read(*old(io), *final(io)).len() == n,
            None => bytes_read(*old(io), *final(io)) == old(io).incoming() && r == Err::<
                XymodemPacket,
                ModemTransferError,
            >(old(io).read_failure()),
        },
{
    assert(old(io).received().subrange(0, old(io).received().len() as int) =~= old(io).received());
    let marker = match io.read_byte(XYMODEM_TIMEOUT_MS) {
        Ok(b) => b,
        Err(e) => {
            assert(bytes_read(*old(io), *io) =~= Seq::<u8>::empty());
            return Err(e);
        },
    };
    let ghost after_marker = *io;
    proof {
        assert(bytes_read(*old(io), *io) =~= seq![marker]);
        assert(io.received().subrange(0, old(io).received().len() as int) =~= old(io).received());
        assert(old(io).incoming() =~= seq![marker] + io.incoming());
    }
    if marker == EOT {
        return Ok(XymodemPacket::EndOfTransmission);
    }
    if marker == CAN {
        let next = match io.read_byte(XYMODEM_TIMEOUT_MS) {
            Ok(b) => b,
            Err(e) => {
                assert(bytes_read(*old(io), *io) =~= seq![marker]);
                return Err(e);
            },
        };
        proof {
            assert(bytes_read(*old(io), *io) =~= seq![marker, next]);
            assert(io.received().subrange(0, old(io).received().len() as int) =~= old(io).received());
            assert(old(io).incoming() =~= seq![marker, next] + io.incoming());
        }
        return if next == CAN {
            Err(ModemTransferError::Cancelled)
        } else {
            Err(ModemTransferError::UnexpectedByte(CAN))
        };
    }
    let size = match XyBlockSize::from_marker(marker) {
        Some(s) => s,
        None => return Err(ModemTransferError::UnexpectedByte(marker)),
    };
    let check_len: usize = if use_crc {
        2
    } else {
        1
    };
    let rest = match read_exact(io, 2 + size.len() + check_len) {
        Ok(v) => v,
        Err(e) => {
            proof {
                lemma_reads_compose(*old(io), after_marker, *io);
            }
            return Err(e);
        },
    };
    proof {
        lemma_reads_compose(*old(io), after_marker, *io);
    }
    let mut raw: Vec<u8> = Vec::new();
    raw.push(marker);
    raw.extend_from_slice(rest.as_slice());
    assert(io.received() =~= old(io).received() + raw@);
    assert(bytes_read(*old(io), *io) =~= raw@);
    let parsed = if use_crc {
        XyBlock::parse_crc(raw.as_slice())
    } else {
        XyBlock::parse_checksum(raw.as_slice())
    };
    match parsed {
        Ok(block) => Ok(XymodemPacket::Block(block)),
        Err(e) => Err(ModemTransferError::Protocol(e)),
    }
}

/// Reads a data block (EOT is not expected here).
pub fn read_xymodem_block<I: ModemIo>(io: &mut I, use_crc: bool) -> (r: Result<
    XyBlock,
    ModemTransferError,
>)
    ensures
        reads_only(*old(io), *final(io)),
        consumed_in_order(*old(io), *final(io)),
        r is Ok ==> final(io).pending() < old(io).pending(),
        r matches Ok(b) ==> exists|raw: Seq<u8>|
            final(io).received() == old(io).received() + raw && (if use_crc {
                spec_parse_crc(raw)
            } else {
                spec_parse_checksum(raw)
            }) == Ok::<(u8, XyBlockSize, Seq<u8>), ModemError>(block_view(b)),
        ({
            let t = bytes_read(*old(io), *final(io));
            match r {
                Ok(b) => xy_block_read(t, use_crc) == XyRead::Block(block_view(b))
                    && xy_block_consumed(t, use_crc),
                Err(e) => (xy_block_read(t, use_crc) == XyRead::Failed(e) && xy_block_consumed(
                    t,
                    use_crc,
                )) || (xy_block_read(t, use_crc) is Pending && !final(io).can_read()
                    && e == final(io).read_failure()),
            }
        }),
        old(io).reliable() ==> final(io).reliable() && final(io).read_failure() == old(io).read_failure()
            && match xy_block_take(old(io).incoming(), use_crc) {
            Some(n) => bytes_read(*old(io), *final(io)).len() == n,
            None => bytes_read(*old(io), *final(io)) == old(io).incoming() && r == Err::<
                XyBlock,
                ModemTransferError,
            >(old(io).read_failure()),
        },
{
    assert(old(io).received().subrange(0, old(io).received().len() as int) =~= old(io).received());
    let marker = match io.read_byte(XYMODEM_TIMEOUT_MS) {
        Ok(b) => b,
        Err(e) => {
            assert(bytes_read(*old(io), *io) =~= Seq::<u8>::empty());
            return Err(e);
        },
    };
    let ghost after_marker = *io;
    proof {
        assert(bytes_read(*old(io), *io) =~= seq![marker]);
        assert(io.received().subrange(0, old(io).received().len() as int) =~= old(io).received());
        assert(old(io).incoming() =~= seq![marker] + io.incoming());
    }
    let size = match XyBlockSize::from_marker(marker) {
        Some(s) => s,
        None => return Err(ModemTransferError::UnexpectedByte(marker)),
    };
    let check_len: usize = if use_crc {
        2
    } else {
        1
    };
    let rest = match read_exact(io, 2 + size.len() + check_len) {
        Ok(v) => v,
        Err(e) => {
            proof {
                lemma_reads_compose(*old(io), after_marker, *io);
            }
            return Err(e);
        },
    };
    proof {
        lemma_reads_compose(*old(io), after_marker, *io);
    }
    let mut raw: Vec<u8> = Vec::new();
    raw.push(marker);
    raw.extend_from_slice(rest.as_slice());
    assert(io.received() =~= old(io).received() + raw@);
    assert(bytes_read(*old(io), *io) =~= raw@);
    let parsed = if use_crc {
        XyBlock::parse_crc(raw.as_slice())
    } else {
        XyBlock::parse_checksum(raw.as_slice())
    };
    match parsed {
        Ok(block) => Ok(block),
        Err(e) => Err(ModemTransferError::Protocol(e)),
    }
}

/// Taking `p` and then `c` more is taking `p + c`; skipping likewise.
proof fn lemma_take_skip(u: Seq<u8>, p: int, c: int)
    requires
        0 <= p,
        0 <= c,
        p + c <= u.len(),
    ensures
        u.take(p) + u.skip(p).take(c) == u.take(p + c),
        u.skip(p).skip(c) == u.skip(p + c),
{
    assert(u.take(p) + u.skip(p).take(c) =~= u.take(p + c));
    assert(u.skip(p).skip(c) =~= u.skip(p + c));
}

/// Fills up to `max_len` bytes from `reader`, stopping early only at end of data.
pub fn read_padded<R: ModemRead>(reader: &mut R, max_len: usize) -> (r: Result<
    Vec<u8>,
    ModemTransferError,
>)
    ensures
        final(reader).remaining() <= old(reader).remaining(),
        r matches Ok(v) ==> v@.len() <= max_len && final(reader).consumed() == old(
            reader,
        ).consumed() + v@ && final(reader).remaining() + v@.len() == old(reader).remaining(),
        r matches Ok(v) ==> (v@.len() < max_len ==> final(reader).remaining() == 0),
        old(reader).failure() is None ==> r is Ok,
        max_len > 0 && old(reader).failure() is Some ==> r is Err,
        r matches Err(e) ==> old(reader).failure() == Some(e) && final(reader).failure() == Some(e),
        r is Ok && max_len > 0 ==> final(reader).failure() is None,
        r matches Ok(v) ==> v@ == old(reader).unread().take(
            if max_len < old(reader).unread().len() {
                max_len as int
            } else {
                old(reader).unread().len() as int
            },
        ) && final(reader).unread() == old(reader).unread().skip(v@.len() as int),
{
    let mut out: Vec<u8> = Vec::new();
    while out.len() < max_len
        invariant
            out@.len() <= max_len,
            reader.consumed() == old(reader).consumed() + out@,
            reader.remaining() + out@.len() == old(reader).remaining(),
            out@.len() > 0 ==> reader.failure() is None && old(reader).failure() is None,
            out@.len() == 0 ==> reader.failure() == old(reader).failure(),
            out@.len() <= old(reader).unread().len(),
            out@ == old(reader).unread().take(out@.len() as int),
            reader.unread() == old(reader).unread().skip(out@.len() as int),
        ensures
            reader.consumed() == old(reader).consumed() + out@,
            reader.remaining() + out@.len() == old(reader).remaining(),
            out@.len() <= max_len,
            out@.len() < max_len ==> reader.remaining() == 0,
            old(reader).failure() is None ==> reader.failure() is None,
            max_len > 0 ==> reader.failure() is None,
            out@ == old(reader).unread().take(out@.len() as int),
            reader.unread() == old(reader).unread().skip(out@.len() as int),
            out@.len() == (if max_len < old(reader).unread().len() {
                max_len as int
            } else {
                old(reader).unread().len() as int
            }),
        decreases max_len - out@.len(),
    {
        let chunk = match reader.read_chunk(max_len - out.len()) {
            Ok(c) => c,
            Err(e) => return Err(e),
        };
        if chunk.len() == 0 {
            assert(reader.consumed() =~= old(reader).consumed() + out@);
            assert(reader.failure() is None);
            break;
        }
        let ghost prev = out@;
        let ghost u = old(reader).unread();
        out.extend_from_slice(chunk.as_slice());
        proof {
            assert(out@ =~= prev + chunk@);
            lemma_take_skip(u, prev.len() as int, chunk@.len() as int);
        }
        assert(reader.consumed() =~= old(reader).consumed() + out@);
    }
    Ok(out)
}

/// Sends the reader's bytes as numbered blocks (reading at most `limit`
/// bytes when given); returns how many bytes were sent.
#[verifier::rlimit(100)]
#[verifier::spinoff_prover]
pub fn send_xymodem_blocks<I: ModemIo, R: ModemRead>(
    io: &mut I,
    reader: &mut R,
    block_size: XyBlockSize,
    use_crc: bool,
    limit: Option<u64>,
) -> (r: Result<u64, ModemTransferError>)
    requires
        old(reader).remaining() <= u64::MAX,
    ensures
        final(io).pending() <= old(io).pending(),
        r matches Ok(total) ==> final(reader).consumed().len() == old(reader).consumed().len()
            + total && (limit matches Some(l) ==> total <= l),
        r matches Ok(total) ==> final(reader).remaining() + total == old(reader).remaining() && (
        limit matches Some(l) ==> (total < l ==> final(reader).remaining() == 0)) && (limit is None
            ==> final(reader).remaining() == 0),
        r is Ok ==> exists|chunks: Seq<Seq<u8>>, ks: Seq<nat>|
            #[trigger] chunks_sendable(chunks, ks, block_size) && final(reader).consumed() == old(
                reader,
            ).consumed() + concat_units(chunks) && final(io).sent() == old(io).sent()
                + sent_blocks(chunks, ks, block_size, use_crc),
        old(io).received().len() <= final(io).received().len(),
        r matches Err(e) ==> channel_error(*old(io), *final(io), e) || final(reader).failure() == Some(e),
        old(io).reliable() && old(reader).failure() is None ==> ({
            let sim = xy_blocks_sim(
                old(io).incoming(),
                old(reader).unread(),
                block_size,
                use_crc,
                1,
                xy_limit(limit, 0),
                old(io).read_failure(),
            );
            &&& final(io).reliable() && final(io).read_failure() == old(io).read_failure()
            &&& match (r, sim.result) {
                (Ok(a), Ok(b)) => a == b,
                (Err(e), Err(f)) => e == f,
                _ => false,
            }
            &&& final(io).sent() == old(io).sent() + sim.sent
            &&& final(io).incoming() == sim.left
        }),
{
    let ghost rel = old(io).reliable() && old(reader).failure() is None;
    let ghost rf = old(io).read_failure();
    let ghost whole = xy_blocks_sim(old(io).incoming(), old(reader).unread(), block_size, use_crc, 1, xy_limit(limit, 0), rf);
    assert(blocks_tracks(whole, whole, 0, old(io).sent(), old(io).sent())) by {
        reveal(blocks_tracks);
    }
    let mut number: u8 = 1;
    let mut total: u64 = 0;
    let n = block_size.len();
    let ghost mut chunks: Seq<Seq<u8>> = Seq::empty();
    let ghost mut ks: Seq<nat> = Seq::empty();
    assert(old(reader).consumed() + Seq::<u8>::empty() =~= old(reader).consumed());
    assert(old(io).sent() + Seq::<u8>::empty() =~= old(io).sent());
    loop
        invariant
            n == spec_block_len(block_size),
            old(reader).remaining() <= u64::MAX,
            io.pending() <= old(io).pending(),
            reader.consumed().len() == old(reader).consumed().len() + total,
            reader.remaining() + total == old(reader).remaining(),
            limit matches Some(l) ==> total <= l,
            chunks_sendable(chunks, ks, block_size),
            reader.consumed() == old(reader).consumed() + concat_units(chunks),
            io.sent() == old(io).sent() + sent_blocks(chunks, ks, block_size, use_crc),
            number == ((chunks.len() + 1) % 256) as u8,
            old(io).received().len() <= io.received().len(),
            rel == (old(io).reliable() && old(reader).failure() is None),
            rf == old(io).read_failure(),
            whole == xy_blocks_sim(old(io).incoming(), old(reader).unread(), block_size, use_crc, 1, xy_limit(limit, 0), rf),
            rel ==> io.reliable() && io.read_failure() == rf && reader.failure() is None && blocks_tracks(
                whole,
                xy_blocks_sim(io.incoming(), reader.unread(), block_size, use_crc, number, xy_limit(limit, total as nat), rf),
                total as nat,
                old(io).sent(),
                io.sent(),
            ),
        decreases reader.remaining(),
    {
        let ghost sent_before = io.sent();
        let ghost consumed_before = reader.consumed();
        let ghost cur0 = xy_blocks_sim(io.incoming(), reader.unread(), block_size, use_crc, number, xy_limit(limit, total as nat), rf);
        proof {
            if rel {
                lemma_blocks_step(io.incoming(), reader.unread(), block_size, use_crc, number, xy_limit(limit, total as nat), rf);
                lemma_blocks_tracks_open(whole, cur0, total as nat, old(io).sent(), io.sent());
            }
        }
        let ghost u0 = reader.unread();
        let ghost in0 = io.incoming();
        let want: usize = match limit {
            Some(l) => {
                let left = l - total;
                if left < n as u64 {
                    left as usize
                } else {
                    n
                }
            },
            None => n,
        };
        assert(want == xy_want(block_size, xy_limit(limit, total as nat)));
        let buffer = match read_padded(reader, want) {
            Ok(b) => b,
            Err(e) => return Err(e),
        };
        if buffer.len() == 0 {
            assert(reader.consumed() =~= consumed_before);
            proof {
                if rel {
                    assert(u0.len() == 0 || want == 0);
                    assert(io.sent() + Seq::<u8>::empty() =~= io.sent());
                }
            }
            return Ok(total);
        }
        let mut padded = buffer.clone();
        crate::bytes::push_repeated(&mut padded, CPMEOF, n - buffer.len());
        let ghost before_block = *io;
        match send_xymodem_block(io, number, block_size, padded.as_slice(), use_crc) {
            Ok(()) => {},
            Err(e) => {
                proof {
                    lemma_channel_error_earlier(*old(io), before_block, *io, e);
                }
                return Err(e);
            },
        }
        proof {
            if rel {
                let c = u0.take(buffer@.len() as int);
                assert(buffer@ == c);
                assert(padded_payload(block_size, padded@) =~= padded_payload(block_size, buffer@));
                assert(encoded_block(number, block_size, padded@, use_crc) == encoded_block(number, block_size, c, use_crc));
                let st = xy_ack_sim(in0, encoded_block(number, block_size, c, use_crc), true, 0, rf);
                let nxt = xy_blocks_sim(
                    io.incoming(),
                    reader.unread(),
                    block_size,
                    use_crc,
                    next_block_number(number),
                    xy_lim_after(xy_limit(limit, total as nat), c.len()),
                    rf,
                );
                assert(xy_lim_after(xy_limit(limit, total as nat), c.len()) == xy_limit(limit, (total + c.len()) as nat));
                assert(st.result is Ok);
                assert(io.sent() == sent_before + st.sent);
                assert(old(io).sent() + whole.sent =~= io.sent() + nxt.sent);
                lemma_blocks_tracks_close(whole, nxt, (total + c.len()) as nat, old(io).sent(), io.sent());
            }
            let k = choose|k: nat|
                1 <= k <= XYMODEM_RETRIES && io.sent() == sent_before + repeat_seq(
                    encoded_block(number, block_size, padded@, use_crc),
                    k,
                );
            assert(padded_payload(block_size, padded@) =~= padded_payload(block_size, buffer@));
            lemma_chunk_sent(chunks, ks, buffer@, k, block_size, use_crc);
            assert(reader.consumed() =~= old(reader).consumed() + concat_units(chunks.push(buffer@)));
            chunks = chunks.push(buffer@);
            ks = ks.push(k);
        }
        number = if number == 255 {
            0
        } else {
            number + 1
        };
        total = total + buffer.len() as u64;
    }
}

/// A read of `t` from `input` leaves `rest`.
proof fn lemma_read_split(input: Seq<u8>, t: Seq<u8>, rest: Seq<u8>)
    requires
        input == t + rest,
    ensures
        input.take(t.len() as int) == t,
        input.subrange(t.len() as int, input.len() as int) == rest,
        t.len() <= input.len(),
{
    assert(input.take(t.len() as int) =~= t);
    assert(input.subrange(t.len() as int, input.len() as int) =~= rest);
}

/// What an X/YMODEM block receiver sends and writes from some point on, and
/// how it ends.
pub ghost struct XyRecvSim {
    pub result: Result<u64, ModemTransferError>,
    pub sent: Seq<u8>,
    pub written: Seq<u8>,
    /// The input left unread once it ends well.
    pub left: Seq<u8>,
}

/// `sim` after `bytes` were sent and `data` written first.
pub open spec fn xy_after(bytes: Seq<u8>, data: Seq<u8>, sim: XyRecvSim) -> XyRecvSim {
    XyRecvSim { sent: bytes + sim.sent, written: data + sim.written, ..sim }
}

/// A receiver that ends with `e`, sending and writing nothing more.
pub open spec fn xy_fail(e: ModemTransferError) -> XyRecvSim {
    XyRecvSim { result: Err(e), sent: Seq::empty(), written: Seq::empty(), left: Seq::empty() }
}

/// The block number before `n`.
pub open spec fn previous_block_number(n: u8) -> u8 {
    if n == 0 {
        255
    } else {
        (n - 1) as u8
    }
}

/// How many bytes of a payload of `n` bytes are kept after `total`, with
/// the expected size `expected_size`.
pub open spec fn xy_write_len(n: nat, total: nat, expected_size: Option<u64>) -> nat {
    match expected_size {
        Some(size) => if size - total < n {
            (size - total) as nat
        } else {
            n
        },
        None => n,
    }
}

/// The XMODEM block receiver (no YMODEM EOT handshake) on a reliable channel
/// whose unread input is `input`, with a writer that does not fail; it
/// expects block `expected`, has written `total` bytes and has retried
/// `retries` times; `rf` is the channel's read error. The expected block is
/// written (cut to the expected size) and acknowledged; a repeat of the
/// previous block is acknowledged; another block is answered with NAK; EOT
/// is acknowledged and ends the transfer; CAN CAN (or a `Cancelled` read)
/// cancels; another failed read is answered with NAK and retried, up to the
/// retry limit.
pub open spec fn xy_recv_sim(
    input: Seq<u8>,
    use_crc: bool,
    expected_size: Option<u64>,
    ymodem: bool,
    expected: u8,
    total: nat,
    retries: nat,
    rf: ModemTransferError,
) -> XyRecvSim
    decreases input.len(), XYMODEM_RETRIES - retries,
{
    if retries > XYMODEM_RETRIES {
        xy_fail(rf)
    } else {
        let on_error = |e: ModemTransferError, rest: Seq<u8>|
            if e == ModemTransferError::Cancelled {
                xy_fail(e)
            } else if retries < XYMODEM_RETRIES {
                xy_after(
                    seq![NAK],
                    Seq::empty(),
                    if e == ModemTransferError::UnexpectedByte(EOT) {
                        xy_fail(e)
                    } else if rest.len() <= input.len() {
                        xy_recv_sim(rest, use_crc, expected_size, ymodem, expected, total, retries + 1, rf)
                    } else {
                        xy_fail(rf)
                    },
                )
            } else {
                xy_fail(e)
            };
        match xy_packet_take(input, use_crc) {
            None => on_error(rf, Seq::empty()),
            Some(n) => if n == 0 || n > input.len() {
                xy_fail(rf)
            } else {
                let t = input.take(n as int);
                let rest = input.subrange(n as int, input.len() as int);
                match xy_packet_read(t, use_crc) {
                    XyRead::EndOfTransmission => if ymodem {
                        match expect_sim(rest, EOT, rf) {
                            Ok(()) => XyRecvSim {
                                result: Ok(total as u64),
                                sent: seq![NAK, ACK],
                                written: Seq::empty(),
                                left: rest.drop_first(),
                            },
                            Err(e) => XyRecvSim {
                                result: Err(e),
                                sent: seq![NAK],
                                written: Seq::empty(),
                                left: Seq::empty(),
                            },
                        }
                    } else {
                        XyRecvSim { result: Ok(total as u64), sent: seq![ACK], written: Seq::empty(), left: rest }
                    },
                    XyRead::Block(b) => if b.0 == expected {
                        let w = xy_write_len(b.2.len(), total, expected_size);
                        if w > 0 && total + w > u64::MAX {
                            xy_fail(ModemTransferError::UnsupportedFileSize(total as u64))
                        } else {
                            xy_after(
                                seq![ACK],
                                b.2.take(w as int),
                                xy_recv_sim(rest, use_crc, expected_size, ymodem, next_block_number(expected), total + w, 0, rf),
                            )
                        }
                    } else if b.0 != previous_block_number(expected) {
                        xy_after(seq![NAK], Seq::empty(), xy_recv_sim(rest, use_crc, expected_size, ymodem, expected, total, 0, rf))
                    } else {
                        xy_after(seq![ACK], Seq::empty(), xy_recv_sim(rest, use_crc, expected_size, ymodem, expected, total, 0, rf))
                    },
                    XyRead::Failed(e) => on_error(e, rest),
                    XyRead::Pending => xy_fail(rf),
                }
            },
        }
    }
}

/// `cur`, what is left of a run after `sent` went out and `written` was
/// written, still gives the run `total` that began at `sent0` and `w0`.
pub open spec fn xy_tracks(
    total: XyRecvSim,
    cur: XyRecvSim,
    sent0: Seq<u8>,
    sent: Seq<u8>,
    w0: Seq<u8>,
    written: Seq<u8>,
) -> bool {
    &&& total.result == cur.result
    &&& total.left == cur.left
    &&& sent0 + total.sent == sent + cur.sent
    &&& w0 + total.written == written + cur.written
}

/// Receives numbered blocks into `writer` until EOT; returns the number of
/// bytes written. With `expected_size`, padding past that size is dropped.
#[verifier::rlimit(100)]
#[verifier::spinoff_prover]
pub fn receive_xymodem_blocks<I: ModemIo, W: ModemWrite>(
    io: &mut I,
    writer: &mut W,
    use_crc: bool,
    expected_size: Option<u64>,
    use_ymodem_eot_handshake: bool,
) -> (r: Result<u64, ModemTransferError>)
    ensures
        final(io).pending() <= old(io).pending(),
        final(writer).file_starts() == old(writer).file_starts(),
        final(writer).announced() == old(writer).announced(),
        final(io).incoming().len() <= old(io).incoming().len(),
        old(writer).written().len() <= final(writer).written().len(),
        final(writer).written().subrange(0, old(writer).written().len() as int) == old(
            writer,
        ).written(),
        r matches Ok(total) ==> final(writer).written().len() == old(writer).written().len()
            + total && (expected_size matches Some(s) ==> total <= s),
        r matches Ok(total) ==> exists|units: Seq<Seq<u8>>|
            #[trigger] received_units(old(io).received(), final(io).received(), units, use_crc)
                && final(writer).written() == old(writer).written() + xy_received_data(
                unit_reads(units, use_crc),
                expected_size,
            ).1,
        r matches Err(e) ==> channel_error(*old(io), *final(io), e) || final(writer).failure() == Some(e),
        old(io).reliable() && old(writer).failure() is None ==> ({
            let sim = xy_recv_sim(old(io).incoming(), use_crc, expected_size, use_ymodem_eot_handshake, 1, 0, 0, old(io).read_failure());
            &&& r == sim.result
            &&& final(io).sent() == old(io).sent() + sim.sent
            &&& r is Ok ==> final(writer).written() == old(writer).written() + sim.written
            &&& r is Ok ==> final(io).incoming() == sim.left
            &&& final(io).reliable() && final(io).read_failure() == old(io).read_failure()
            &&& final(writer).failure() is None
        }),
{
    let ghost rel = old(io).reliable() && old(writer).failure() is None;
    let ghost rf = old(io).read_failure();
    let ghost whole = xy_recv_sim(old(io).incoming(), use_crc, expected_size, use_ymodem_eot_handshake, 1, 0, 0, rf);
    assert(old(io).sent() + whole.sent =~= old(io).sent() + whole.sent);
    let mut expected: u8 = 1;
    let mut total: u64 = 0;
    let mut retries: usize = 0;
    let ghost mut units: Seq<Seq<u8>> = Seq::empty();
    assert(old(writer).written() + Seq::<u8>::empty() =~= old(writer).written());
    assert(old(io).received() + Seq::<u8>::empty() =~= old(io).received());
    loop
        invariant
            retries <= XYMODEM_RETRIES,
            io.pending() <= old(io).pending(),
            writer.file_starts() == old(writer).file_starts(),
            writer.announced() == old(writer).announced(),
            io.incoming().len() <= old(io).incoming().len(),
            writer.written().len() == old(writer).written().len() + total,
            writer.written().subrange(0, old(writer).written().len() as int) == old(
                writer,
            ).written(),
            expected_size matches Some(s) ==> total <= s,
            total <= u64::MAX,
            io.received() == old(io).received() + concat_units(units),
            forall|i: int| 0 <= i < units.len() ==> unit_taken(#[trigger] units[i], use_crc),
            xy_received_data(unit_reads(units, use_crc), expected_size).0 == expected,
            writer.written() == old(writer).written() + xy_received_data(
                unit_reads(units, use_crc),
                expected_size,
            ).1,
            rel == (old(io).reliable() && old(writer).failure() is None),
            rf == old(io).read_failure(),
            whole == xy_recv_sim(old(io).incoming(), use_crc, expected_size, use_ymodem_eot_handshake, 1, 0, 0, rf),
            rel ==> io.reliable() && writer.failure() is None && io.read_failure() == rf && xy_tracks(
                whole,
                xy_recv_sim(io.incoming(), use_crc, expected_size, use_ymodem_eot_handshake, expected, total as nat, retries as nat, rf),
                old(io).sent(),
                io.sent(),
                old(writer).written(),
                writer.written(),
            ),
        decreases io.pending(), XYMODEM_RETRIES - retries,
    {
        let ghost before = *io;
        let ghost cur0 = xy_recv_sim(io.incoming(), use_crc, expected_size, use_ymodem_eot_handshake, expected, total as nat, retries as nat, rf);
        let ghost earlier = units;
        let packet = read_xymodem_packet(io, use_crc);
        proof {
            let t = bytes_read(before, *io);
            assert(io.received() == before.received() + t) by {
                assert(io.received() =~= io.received().subrange(0, before.received().len() as int)
                    + t);
            }
            units = units.push(t);
            assert(units.drop_last() =~= earlier);
            assert(io.received() =~= old(io).received() + concat_units(units));
            assert(unit_reads(units, use_crc) =~= unit_reads(earlier, use_crc).push(
                xy_packet_read(t, use_crc),
            ));
            assert(unit_reads(units, use_crc).drop_last() =~= unit_reads(earlier, use_crc));
            assert(unit_taken(t, use_crc));
            assert forall|i: int| 0 <= i < units.len() implies unit_taken(#[trigger] units[i], use_crc) by {
                if i < earlier.len() {
                    assert(units[i] == earlier[i]);
                }
            }
            if rel {
                lemma_read_split(before.incoming(), t, io.incoming());
                if xy_packet_take(before.incoming(), use_crc) is None {
                    assert(io.incoming() =~= Seq::<u8>::empty());
                }
            }
        }
        match packet {
            Ok(XymodemPacket::EndOfTransmission) => {
                let ghost at_eot = io.received();
                if use_ymodem_eot_handshake {
                    match write_byte(io, NAK) {
                        Ok(()) => {},
                        Err(e) => return Err(e),
                    }
                    match expect_byte_or_cancel(io, EOT) {
                        Ok(()) => {},
                        Err(e) => return Err(e),
                    }
                }
                match writer.flush() {
                    Ok(()) => {},
                    Err(e) => return Err(e),
                }
                match write_byte(io, ACK) {
                    Ok(()) => {},
                    Err(e) => return Err(e),
                }
                proof {
                    let n = at_eot.len();
                    assert(io.received().len() >= n);
                    assert(io.received().subrange(0, n as int) =~= at_eot);
                    assert(unit_reads(units, use_crc).last() == XyRead::EndOfTransmission);
                    assert(received_units(old(io).received(), io.received(), units, use_crc));
                }
                return Ok(total);
            },
            Ok(XymodemPacket::Block(block)) => {
                let ghost e0 = expected;
                let ghost t0 = total;
                let ghost sent_b = io.sent();
                let ghost w_b = writer.written();
                let ghost mut kept_part: Seq<u8> = Seq::empty();
                retries = 0;
                if block.number == expected {
                    let payload_len = block.payload.len() as u64;
                    let write_len: u64 = match expected_size {
                        Some(size) => {
                            let left = size - total;
                            if left < payload_len {
                                left
                            } else {
                                payload_len
                            }
                        },
                        None => payload_len,
                    };
                    proof {
                        kept_part = block.payload@.take(write_len as int);
                        assert(xy_write_len(block.payload@.len(), total as nat, expected_size) == write_len);
                    }
                    if write_len > 0 {
                        let part = crate::bytes::copy_range(
                            block.payload.as_slice(),
                            0,
                            write_len as usize,
                        );
                        if total > u64::MAX - write_len {
                            return Err(ModemTransferError::UnsupportedFileSize(total));
                        }
                        let ghost before = writer.written();
                        match writer.write_all(part.as_slice()) {
                            Ok(()) => {},
                            Err(e) => return Err(e),
                        }
                        assert(writer.written().subrange(0, old(writer).written().len() as int)
                            =~= before.subrange(0, old(writer).written().len() as int));
                        total = total + write_len;
                    }
                    expected = if expected == 255 {
                        0
                    } else {
                        expected + 1
                    };
                } else if block.number != (if expected == 0 {
                    255
                } else {
                    expected - 1
                }) {
                    match write_byte(io, NAK) {
                        Ok(()) => {},
                        Err(e) => return Err(e),
                    }
                    proof {
                        if rel {
                            let cur = xy_recv_sim(io.incoming(), use_crc, expected_size, use_ymodem_eot_handshake, expected, total as nat, 0, rf);
                            assert(cur0 == xy_after(seq![NAK], Seq::empty(), cur));
                            assert(io.sent() =~= sent_b + seq![NAK]);
                            assert(old(io).sent() + whole.sent =~= io.sent() + cur.sent);
                            assert(old(writer).written() + whole.written =~= writer.written() + cur.written);
                        }
                    }
                    continue;
                }
                let ghost w_a = writer.written();
                match write_byte(io, ACK) {
                    Ok(()) => {},
                    Err(e) => return Err(e),
                }
                proof {
                    if rel {
                        let cur = xy_recv_sim(io.incoming(), use_crc, expected_size, use_ymodem_eot_handshake, expected, total as nat, 0, rf);
                        let data = w_a.subrange(w_b.len() as int, w_a.len() as int);
                        assert(w_a =~= w_b + data);
                        assert(data =~= kept_part);
                        assert(cur0 == xy_after(seq![ACK], data, cur));
                        assert(io.sent() =~= sent_b + seq![ACK]);
                        assert(old(io).sent() + whole.sent =~= io.sent() + cur.sent);
                        assert(old(writer).written() + whole.written =~= writer.written() + cur.written);
                    }
                }
            },
            Err(ModemTransferError::Cancelled) => return Err(ModemTransferError::Cancelled),
            Err(error) => {
                if retries < XYMODEM_RETRIES {
                    let ghost sent_b = io.sent();
                    retries = retries + 1;
                    match write_byte(io, NAK) {
                        Ok(()) => {},
                        Err(e) => return Err(e),
                    }
                    proof {
                        if rel && error != ModemTransferError::UnexpectedByte(EOT) {
                            let cur = xy_recv_sim(io.incoming(), use_crc, expected_size, use_ymodem_eot_handshake, expected, total as nat, retries as nat, rf);
                            assert(cur0 == xy_after(seq![NAK], Seq::empty(), cur));
                            assert(io.sent() =~= sent_b + seq![NAK]);
                            assert(old(io).sent() + whole.sent =~= io.sent() + cur.sent);
                            assert(old(writer).written() + whole.written =~= writer.written() + cur.written);
                        }
                    }
                    match error {
                        ModemTransferError::UnexpectedByte(b) => {
                            if b == EOT {
                                return Err(ModemTransferError::UnexpectedByte(b));
                            }
                        },
                        _ => {},
                    }
                } else {
                    return Err(error);
                }
            },
        }
    }
}

proof fn lemma_repeat_last(s: Seq<u8>, k: nat)
    requires
        k >= 1,
        s.len() > 0,
    ensures
        repeat_seq(s, k).len() > 0,
        repeat_seq(s, k).last() == s.last(),
{
    assert(repeat_seq(s, k) == repeat_seq(s, (k - 1) as nat) + s);
}

/// Uploads the reader's bytes with XMODEM; returns how many bytes were sent.
pub fn send_xmodem<I: ModemIo, R: ModemRead>(
    io: &mut I,
    reader: &mut R,
    block_mode: XmodemBlockMode,
) -> (r: Result<u64, ModemTransferError>)
    requires
        old(reader).remaining() <= u64::MAX,
    ensures
        final(io).pending() <= old(io).pending(),
        r matches Ok(n) ==> final(reader).consumed().len() == old(reader).consumed().len() + n
            && final(io).sent().len() > 0 && final(io).sent().last() == EOT
            && final(io).received().last() == ACK,
        r is Ok ==> exists|chunks: Seq<Seq<u8>>, ks: Seq<nat>, use_crc: bool, k: nat|
            #![trigger sent_blocks(chunks, ks, mode_block_size(block_mode), use_crc), repeat_seq(seq![EOT], k)]
            chunks_sendable(chunks, ks, mode_block_size(block_mode)) && 1 <= k
                <= XYMODEM_RETRIES && final(reader).consumed() == old(reader).consumed()
                + concat_units(chunks) && final(io).sent() == old(io).sent() + sent_blocks(
                chunks,
                ks,
                mode_block_size(block_mode),
                use_crc,
            ) + repeat_seq(seq![EOT], k),
        old(io).received().len() <= final(io).received().len(),
        r matches Err(e) ==> channel_error(*old(io), *final(io), e) || final(reader).failure() == Some(e),
        old(io).reliable() && old(reader).failure() is None ==> ({
            let sim = xmodem_send_sim(
                old(io).incoming(),
                old(reader).unread(),
                mode_block_size(block_mode),
                old(io).read_failure(),
            );
            &&& match (r, sim.result) {
                (Ok(a), Ok(b)) => a == b,
                (Err(e), Err(f)) => e == f,
                _ => false,
            }
            &&& final(io).sent() == old(io).sent() + sim.sent
        }),
{
    let ghost start_sent = io.sent();
    let use_crc = match wait_for_xymodem_start(io) {
        Ok(c) => c,
        Err(e) => return Err(e),
    };
    let ghost after_start = *io;
    proof {
        if old(io).reliable() {
            assert(io.sent() == old(io).sent());
        }
    }
    let sent = match send_xymodem_blocks(io, reader, block_mode.block_size(), use_crc, None) {
        Ok(n) => n,
        Err(e) => {
            proof {
                if channel_error(after_start, *io, e) {
                    lemma_channel_error_earlier(*old(io), after_start, *io, e);
                }
            }
            return Err(e);
        },
    };
    let ghost mid = io.sent();
    let ghost before_finish = *io;
    proof {
        if old(io).reliable() && old(reader).failure() is None {
            let rf = old(io).read_failure();
            let start = xy_start_sim(old(io).incoming(), 0, rf);
            let blocks = xy_blocks_sim(start.left, old(reader).unread(), mode_block_size(block_mode), use_crc, 1, None, rf);
            assert(after_start.incoming() == start.left);
            assert(mid == old(io).sent() + blocks.sent);
        }
    }
    match finish_xymodem_send(io) {
        Ok(()) => {},
        Err(e) => {
            proof {
                lemma_channel_error_earlier(*old(io), before_finish, *io, e);
            }
            return Err(e);
        },
    }
    proof {
        if old(io).reliable() && old(reader).failure() is None {
            let rf = old(io).read_failure();
            let start = xy_start_sim(old(io).incoming(), 0, rf);
            let blocks = xy_blocks_sim(start.left, old(reader).unread(), mode_block_size(block_mode), use_crc, 1, None, rf);
            let eot = xy_ack_sim(blocks.left, seq![EOT], false, 0, rf);
            assert(io.sent() =~= old(io).sent() + (blocks.sent + eot.sent));
        }
        let k = choose|k: nat|
            1 <= k <= XYMODEM_RETRIES && io.sent() == mid + repeat_seq(seq![EOT], k);
        lemma_repeat_last(seq![EOT], k);
        let (chunks, ks) = choose|chunks: Seq<Seq<u8>>, ks: Seq<nat>|
            #[trigger] chunks_sendable(chunks, ks, mode_block_size(block_mode))
                && reader.consumed() == old(reader).consumed() + concat_units(chunks) && mid
                == start_sent + sent_blocks(chunks, ks, mode_block_size(block_mode), use_crc);
        assert(chunks_sendable(chunks, ks, mode_block_size(block_mode)));
    }
    Ok(sent)
}

/// Receives a file with XMODEM into `writer`; returns how many bytes were written.
pub fn receive_xmodem<I: ModemIo, W: ModemWrite>(io: &mut I, writer: &mut W, use_crc: bool) -> (r:
    Result<u64, ModemTransferError>)
    ensures
        final(io).pending() <= old(io).pending(),
        final(writer).file_starts() == old(writer).file_starts(),
        r matches Ok(n) ==> final(writer).written().len() == old(writer).written().len() + n
            && final(writer).written().subrange(0, old(writer).written().len() as int) == old(writer).written(),
        r is Ok ==> exists|units: Seq<Seq<u8>>|
            #[trigger] received_units(old(io).received(), final(io).received(), units, use_crc)
                && final(writer).written() == old(writer).written() + xy_received_data(
                unit_reads(units, use_crc),
                None,
            ).1,
        r matches Err(e) ==> channel_error(*old(io), *final(io), e) || final(writer).failure() == Some(e),
        old(io).reliable() && old(writer).failure() is None ==> ({
            let sim = xy_recv_sim(old(io).incoming(), use_crc, None, false, 1, 0, 0, old(io).read_failure());
            &&& r == sim.result
            &&& final(io).sent() == old(io).sent() + seq![
                if use_crc {
                    WANT_CRC
                } else {
                    NAK
                },
            ] + sim.sent
            &&& r is Ok ==> final(writer).written() == old(writer).written() + sim.written
        }),
{
    match write_byte(
        io,
        if use_crc {
            WANT_CRC
        } else {
            NAK
        },
    ) {
        Ok(()) => {},
        Err(e) => return Err(e),
    }
    let ghost io_blocks = *io;
    proof {
        let start = seq![
            if use_crc {
                WANT_CRC
            } else {
                NAK
            },
        ];
        if old(io).reliable() {
            assert(io.sent() =~= old(io).sent() + start);
            let sim = xy_recv_sim(io.incoming(), use_crc, None, false, 1, 0, 0, io.read_failure());
            assert(io.sent() + sim.sent =~= old(io).sent() + start + sim.sent);
        }
    }
    let r = receive_xymodem_blocks(io, writer, use_crc, None, false);
    proof {
        if r is Err {
            let e = r->Err_0;
            if channel_error(io_blocks, *io, e) {
                lemma_channel_error_earlier(*old(io), io_blocks, *io, e);
            }
        }
        let w = writer.written();
        let n = old(writer).written().len() as int;
        if n <= w.len() {
            assert(w =~= w.subrange(0, n) + w.subrange(n, w.len() as int));
        }
    }
    r
}

/// The total declared size of a batch.
pub open spec fn total_declared_size<R>(entries: Seq<YmodemSendStreamEntry<R>>) -> nat
    decreases entries.len(),
{
    if entries.len() == 0 {
        0
    } else {
        total_declared_size(entries.drop_last()) + entries.last().file_size as nat
    }
}

/// How one file of a YMODEM batch went out: how many times block zero was
/// sent, the chunks of its data blocks and how many times each was sent,
/// and how many times EOT was sent.
pub ghost struct YmodemEntrySend {
    pub header_tries: nat,
    pub chunks: Seq<Seq<u8>>,
    pub tries: Seq<nat>,
    pub eot_tries: nat,
}

/// Every count is between one and the retry limit, and the chunks are
/// parts of 1 KiB blocks.
pub open spec fn entry_send_ok(s: YmodemEntrySend) -> bool {
    &&& 1 <= s.header_tries <= XYMODEM_RETRIES
    &&& chunks_sendable(s.chunks, s.tries, XyBlockSize::Bytes1024)
    &&& 1 <= s.eot_tries <= XYMODEM_RETRIES
}

/// What goes out for one file: block zero, its data blocks, and EOT.
pub open spec fn entry_sent(block0: Seq<u8>, s: YmodemEntrySend) -> Seq<u8> {
    repeat_seq(encoded_block(0, XyBlockSize::Bytes128, block0, true), s.header_tries) + sent_blocks(
        s.chunks,
        s.tries,
        XyBlockSize::Bytes1024,
        true,
    ) + repeat_seq(seq![EOT], s.eot_tries)
}

/// What goes out for the files `sends` with block-zero payloads `block0s`.
pub open spec fn batch_sent(block0s: Seq<Seq<u8>>, sends: Seq<YmodemEntrySend>) -> Seq<u8>
    decreases sends.len(),
{
    if sends.len() == 0 || block0s.len() != sends.len() {
        Seq::empty()
    } else {
        batch_sent(block0s.drop_last(), sends.drop_last()) + entry_sent(block0s.last(), sends.last())
    }
}

/// The block-zero payload of each entry.
pub open spec fn entries_block0<R>(entries: Seq<YmodemSendStreamEntry<R>>, block0s: Seq<Seq<u8>>) -> bool {
    &&& block0s.len() == entries.len()
    &&& forall|k: int|
        0 <= k < entries.len() ==> spec_block0(
            text_bytes(#[trigger] entries[k].file_name@),
            Some(entries[k].file_size),
        ) == Ok::<Seq<u8>, ModemError>(block0s[k])
}

/// The name, declared size and data of each upload entry.
pub open spec fn ysend_files<R: ModemRead>(entries: Seq<YmodemSendStreamEntry<R>>) -> Seq<
    (Seq<char>, u64, Seq<u8>),
> {
    Seq::new(
        entries.len(),
        |k: int| (entries[k].file_name@, entries[k].file_size, entries[k].reader.unread()),
    )
}

/// The name, declared size and bytes of each in-memory upload entry.
pub open spec fn ymem_files(entries: Seq<YmodemSendEntry>) -> Seq<(Seq<char>, u64, Seq<u8>)> {
    Seq::new(entries.len(), |k: int| (entries[k].file_name@, entries[k].file_size, entries[k].bytes@))
}

/// One file of a YMODEM upload on a reliable channel whose unread input is
/// `input` (`rf` its read error), `f` its name, declared size and data: the
/// start request; a name that is not a valid file name, or whose block
/// zero cannot be built, is refused; block zero until acknowledged; `C`;
/// the data as 1 KiB blocks up to the declared size, which the data must
/// reach; EOT until acknowledged.
pub open spec fn y_entry_sim(input: Seq<u8>, f: (Seq<char>, u64, Seq<u8>), rf: ModemTransferError) -> XySendSim<()> {
    let start = xy_start_sim(input, 0, rf);
    let name = text_bytes(f.0);
    match start.result {
        Err(e) => XySendSim { result: Err(e), sent: Seq::empty(), left: start.left },
        Ok(_) => if !spec_valid_file_name(name) {
            XySendSim {
                result: Err(ModemTransferError::Protocol(ModemError::InvalidFileName)),
                sent: Seq::empty(),
                left: start.left,
            }
        } else {
            match spec_block0(name, Some(f.1)) {
                Err(me) => XySendSim {
                    result: Err(ModemTransferError::Protocol(me)),
                    sent: Seq::empty(),
                    left: start.left,
                },
                Ok(payload) => {
                    let h = xy_ack_sim(start.left, encoded_block(0, XyBlockSize::Bytes128, payload, true), true, 0, rf);
                    match h.result {
                        Err(e) => XySendSim { result: Err(e), sent: h.sent, left: h.left },
                        Ok(_) => match expect_sim(h.left, WANT_CRC, rf) {
                            Err(e) => XySendSim { result: Err(e), sent: h.sent, left: h.left },
                            Ok(_) => {
                                let b = xy_blocks_sim(
                                    h.left.drop_first(),
                                    f.2,
                                    XyBlockSize::Bytes1024,
                                    true,
                                    1,
                                    Some(f.1 as nat),
                                    rf,
                                );
                                match b.result {
                                    Err(e) => XySendSim { result: Err(e), sent: h.sent + b.sent, left: b.left },
                                    Ok(k) => if k != f.1 {
                                        XySendSim {
                                            result: Err(ModemTransferError::UnexpectedFrame),
                                            sent: h.sent + b.sent,
                                            left: b.left,
                                        }
                                    } else {
                                        let eot = xy_ack_sim(b.left, seq![EOT], false, 0, rf);
                                        XySendSim { result: eot.result, sent: h.sent + b.sent + eot.sent, left: eot.left }
                                    },
                                }
                            },
                        },
                    }
                },
            }
        },
    }
}

/// A YMODEM batch upload from file `i` on: each file in turn, then the
/// start request and the empty block zero that ends the batch.
pub open spec fn y_send_sim(
    input: Seq<u8>,
    files: Seq<(Seq<char>, u64, Seq<u8>)>,
    i: nat,
    rf: ModemTransferError,
) -> XySendSim<()>
    decreases files.len() - i,
{
    if i >= files.len() {
        let start = xy_start_sim(input, 0, rf);
        match start.result {
            Err(e) => XySendSim { result: Err(e), sent: Seq::empty(), left: start.left },
            Ok(_) => xy_ack_sim(
                start.left,
                encoded_block(0, XyBlockSize::Bytes128, repeat(0, 128), true),
                true,
                0,
                rf,
            ),
        }
    } else {
        let e = y_entry_sim(input, files[i as int], rf);
        match e.result {
            Err(_) => e,
            Ok(_) => xy_send_after(e.sent, y_send_sim(e.left, files, i + 1, rf)),
        }
    }
}

/// Whether a file is refused before it is sent: its name is not a valid
/// file name, or its block zero cannot be built.
pub open spec fn block0_refused(file_name: Seq<char>, file_size: u64, e: ModemTransferError) -> bool {
    let name = text_bytes(file_name);
    ||| (!spec_valid_file_name(name) && e == ModemTransferError::Protocol(ModemError::InvalidFileName))
    ||| (spec_block0(name, Some(file_size)) matches Err(me) && e == ModemTransferError::Protocol(me))
}

/// Whether an entry is refused before it is sent.
pub open spec fn entry_refused<R>(entry: YmodemSendStreamEntry<R>, e: ModemTransferError) -> bool {
    block0_refused(entry.file_name@, entry.file_size, e)
}

/// Where an error `e` of a YMODEM batch upload came from: the channel, a
/// reader that failed, an entry refused before it was sent, or a reader
/// that held fewer bytes than its declared size.
pub open spec fn ymodem_send_error<I: ModemIo, R: ModemRead>(
    io0: I,
    io1: I,
    entries0: Seq<YmodemSendStreamEntry<R>>,
    entries1: Seq<YmodemSendStreamEntry<R>>,
    e: ModemTransferError,
) -> bool {
    ||| channel_error(io0, io1, e)
    ||| exists|k: int| 0 <= k < entries1.len() && #[trigger] entries1[k].reader.failure() == Some(e)
    ||| exists|k: int| 0 <= k < entries0.len() && entry_refused(#[trigger] entries0[k], e)
    ||| (e == ModemTransferError::UnexpectedFrame && exists|k: int|
        0 <= k < entries0.len() && #[trigger] entries0[k].reader.remaining() < entries0[k].file_size)
}

/// Uploads a batch of files with YMODEM; returns the number of file bytes sent.
/// Each reader must supply exactly its declared size.
#[verifier::rlimit(100)]
#[verifier::spinoff_prover]
pub fn send_ymodem_stream<I: ModemIo, R: ModemRead>(
    io: &mut I,
    entries: &mut Vec<YmodemSendStreamEntry<R>>,
) -> (r: Result<u64, ModemTransferError>)
    requires
        total_declared_size(old(entries)@) <= u64::MAX,
        forall|k: int|
            0 <= k < old(entries)@.len() ==> #[trigger] old(entries)@[k].reader.remaining()
                <= u64::MAX,
    ensures
        final(io).pending() <= old(io).pending(),
        final(entries)@.len() == old(entries)@.len(),
        r matches Ok(total) ==> total == total_declared_size(old(entries)@) && forall|k: int|
            0 <= k < old(entries)@.len() ==> #[trigger] final(entries)@[k].reader.consumed().len()
                == old(entries)@[k].reader.consumed().len() + old(entries)@[k].file_size,
        r is Ok ==> exists|block0s: Seq<Seq<u8>>, sends: Seq<YmodemEntrySend>, k: nat|
            #![trigger batch_sent(block0s, sends), repeat_seq(encoded_block(0, XyBlockSize::Bytes128, repeat(0, 128), true), k)]
            entries_block0(old(entries)@, block0s) && sends.len() == old(entries)@.len() && (
            forall|j: int|
                0 <= j < sends.len() ==> entry_send_ok(#[trigger] sends[j])
                    && final(entries)@[j].reader.consumed() == old(entries)@[j].reader.consumed()
                    + concat_units(sends[j].chunks)) && 1 <= k <= XYMODEM_RETRIES
                && final(io).sent() == old(io).sent() + batch_sent(block0s, sends)
                + repeat_seq(encoded_block(0, XyBlockSize::Bytes128, repeat(0, 128), true), k),
        old(io).received().len() <= final(io).received().len(),
        r matches Err(e) ==> ymodem_send_error(*old(io), *final(io), old(entries)@, final(entries)@, e),
        old(io).reliable() && (forall|k: int|
            0 <= k < old(entries)@.len() ==> (#[trigger] old(entries)@[k]).reader.failure() is None)
            ==> ({
            let sim = y_send_sim(old(io).incoming(), ysend_files(old(entries)@), 0, old(io).read_failure());
            &&& (r is Ok <==> sim.result is Ok)
            &&& (r matches Err(e) ==> sim.result == Err::<(), ModemTransferError>(e))
            &&& final(io).sent() == old(io).sent() + sim.sent
        }),
{
    let ghost rel = old(io).reliable() && (forall|k: int|
        0 <= k < old(entries)@.len() ==> (#[trigger] old(entries)@[k]).reader.failure() is None);
    let ghost rf = old(io).read_failure();
    let ghost files = ysend_files(old(entries)@);
    let ghost whole = y_send_sim(old(io).incoming(), files, 0, rf);
    let mut total: u64 = 0;
    let mut i: usize = 0;
    let ghost mut block0s: Seq<Seq<u8>> = Seq::empty();
    let ghost mut sends: Seq<YmodemEntrySend> = Seq::empty();
    assert(old(io).sent() + Seq::<u8>::empty() =~= old(io).sent());
    while i < entries.len()
        invariant
            block0s.len() == i,
            sends.len() == i,
            entries_block0(old(entries)@.subrange(0, i as int), block0s),
            forall|j: int|
                0 <= j < i ==> entry_send_ok(#[trigger] sends[j]) && entries@[j].reader.consumed()
                    == old(entries)@[j].reader.consumed() + concat_units(sends[j].chunks),
            io.sent() == old(io).sent() + batch_sent(block0s, sends),
            i <= entries@.len(),
            entries@.len() == old(entries)@.len(),
            total_declared_size(old(entries)@) <= u64::MAX,
            total == total_declared_size(old(entries)@.subrange(0, i as int)),
            io.pending() <= old(io).pending(),
            old(io).received().len() <= io.received().len(),
            forall|k: int|
                0 <= k < entries@.len() ==> #[trigger] entries@[k].file_size == old(
                    entries,
                )@[k].file_size && entries@[k].file_name == old(entries)@[k].file_name,
            forall|k: int|
                i <= k < entries@.len() ==> #[trigger] entries@[k].reader == old(
                    entries,
                )@[k].reader,
            forall|k: int|
                0 <= k < i ==> #[trigger] entries@[k].reader.consumed().len() == old(
                    entries,
                )@[k].reader.consumed().len() + old(entries)@[k].file_size,
            forall|k: int|
                0 <= k < old(entries)@.len() ==> #[trigger] old(entries)@[k].reader.remaining()
                    <= u64::MAX,
            rel == (old(io).reliable() && (forall|k: int|
                0 <= k < old(entries)@.len() ==> (#[trigger] old(entries)@[k]).reader.failure() is None)),
            rf == old(io).read_failure(),
            files == ysend_files(old(entries)@),
            whole == y_send_sim(old(io).incoming(), files, 0, rf),
            rel ==> io.reliable() && io.read_failure() == rf && whole.result == y_send_sim(
                io.incoming(),
                files,
                i as nat,
                rf,
            ).result && old(io).sent() + whole.sent == io.sent() + y_send_sim(
                io.incoming(),
                files,
                i as nat,
                rf,
            ).sent,
        decreases entries@.len() - i,
    {
        let ghost io_top = *io;
        let ghost fi = files[i as int];
        let ghost ent = y_entry_sim(io.incoming(), fi, rf);
        proof {
            if rel {
                assert(entries@[i as int].file_size == old(entries)@[i as int].file_size);
                assert(fi.0 == entries@[i as int].file_name@);
                assert(fi.1 == entries@[i as int].file_size);
                assert(fi.2 == entries@[i as int].reader.unread());
                assert(entries@[i as int].reader.failure() is None);
            }
        }
        match wait_for_xymodem_start(io) {
            Ok(_) => {},
            Err(e) => {
                proof {
                    lemma_channel_error_earlier(*old(io), io_top, *io, e);
                }
                return Err(e);
            },
        }
        let header = match YmodemFileHeader::new(
            entries[i].file_name.as_str(),
            Some(entries[i].file_size),
        ) {
            Ok(h) => h,
            Err(e) => {
                assert(entry_refused(old(entries)@[i as int], ModemTransferError::Protocol(e)));
                return Err(ModemTransferError::Protocol(e));
            },
        };
        let payload = match header.encode_block0_payload() {
            Ok(p) => p,
            Err(e) => {
                assert(entry_refused(old(entries)@[i as int], ModemTransferError::Protocol(e)));
                return Err(ModemTransferError::Protocol(e));
            },
        };
        let ghost sent_entry = io.sent();
        let ghost io_block0 = *io;
        match send_xymodem_block(io, 0, XyBlockSize::Bytes128, payload.as_slice(), true) {
            Ok(()) => {},
            Err(e) => {
                proof {
                    lemma_channel_error_earlier(*old(io), io_block0, *io, e);
                }
                return Err(e);
            },
        }
        let ghost header_tries = choose|k: nat|
            1 <= k <= XYMODEM_RETRIES && io.sent() == sent_entry + repeat_seq(
                encoded_block(0, XyBlockSize::Bytes128, payload@, true),
                k,
            );
        let ghost after_header = io.sent();
        let ghost io_header = *io;
        match expect_byte_or_cancel(io, WANT_CRC) {
            Ok(()) => {},
            Err(e) => {
                proof {
                    lemma_channel_error_earlier(*old(io), io_header, *io, e);
                }
                return Err(e);
            },
        }
        proof {
            if rel {
                assert(bytes_read(io_header, *io) =~= seq![WANT_CRC]);
                assert(io_header.incoming() =~= seq![WANT_CRC] + io.incoming());
                assert(io.incoming() =~= io_header.incoming().drop_first());
            }
        }
        let file_size = entries[i].file_size;
        let ghost before = entries@;
        let ghost io_data = *io;
        proof {
            if rel {
                assert(xy_limit(Some(file_size), 0) == Some(fi.1 as nat));
            }
        }
        // The block-zero size is authoritative: never send past it.
        let entry_bytes = match send_xymodem_blocks(
            io,
            &mut entries[i].reader,
            XyBlockSize::Bytes1024,
            true,
            Some(file_size),
        ) {
            Ok(n) => n,
            Err(e) => {
                proof {
                    if channel_error(io_data, *io, e) {
                        lemma_channel_error_earlier(*old(io), io_data, *io, e);
                    } else {
                        assert(entries@[i as int].reader.failure() == Some(e));
                    }
                }
                return Err(e);
            },
        };
        if entry_bytes != file_size {
            assert(old(entries)@[i as int].reader.remaining() < old(entries)@[i as int].file_size);
            return Err(ModemTransferError::UnexpectedFrame);
        }
        proof {
            assert(old(entries)@.subrange(0, i + 1).drop_last() =~= old(entries)@.subrange(
                0,
                i as int,
            ));
            lemma_total_prefix_bound(old(entries)@, i + 1);
        }
        total = total + entry_bytes;
        let ghost after_blocks = io.sent();
        let ghost io_eot = *io;
        proof {
            if rel {
                assert(io_data.sent() == after_header);
            }
        }
        match finish_xymodem_send(io) {
            Ok(()) => {},
            Err(e) => {
                proof {
                    lemma_channel_error_earlier(*old(io), io_eot, *io, e);
                }
                return Err(e);
            },
        }
        proof {
            let (chunks, tries) = choose|chunks: Seq<Seq<u8>>, tries: Seq<nat>|
                #[trigger] chunks_sendable(chunks, tries, XyBlockSize::Bytes1024)
                    && entries@[i as int].reader.consumed() == before[i as int].reader.consumed()
                    + concat_units(chunks) && after_blocks == after_header + sent_blocks(
                    chunks,
                    tries,
                    XyBlockSize::Bytes1024,
                    true,
                );
            let eot_tries = choose|k: nat|
                1 <= k <= XYMODEM_RETRIES && io.sent() == after_blocks + repeat_seq(seq![EOT], k);
            let entry = YmodemEntrySend { header_tries, chunks, tries, eot_tries };
            lemma_batch_push(block0s, sends, payload@, entry);
            assert(io.sent() =~= old(io).sent() + batch_sent(block0s.push(payload@), sends.push(entry)));
            let e0 = old(entries)@.subrange(0, i as int);
            let e1 = old(entries)@.subrange(0, i + 1);
            assert forall|j: int| 0 <= j < e1.len() implies spec_block0(
                text_bytes(#[trigger] e1[j].file_name@),
                Some(e1[j].file_size),
            ) == Ok::<Seq<u8>, ModemError>(block0s.push(payload@)[j]) by {
                if j < i {
                    assert(e1[j] == e0[j]);
                } else {
                    assert(e1[j] == old(entries)@[j]);
                }
            }
            assert forall|j: int| 0 <= j < i + 1 implies entry_send_ok(#[trigger] sends.push(entry)[j])
                && entries@[j].reader.consumed() == old(entries)@[j].reader.consumed()
                + concat_units(sends.push(entry)[j].chunks) by {
                if j < i {
                    assert(sends.push(entry)[j] == sends[j]);
                }
            }
            block0s = block0s.push(payload@);
            sends = sends.push(entry);
            if rel {
                let nxt = y_send_sim(io.incoming(), files, (i + 1) as nat, rf);
                assert(ent.result is Ok);
                assert(ent.left == io.incoming());
                assert(io.sent() =~= io_top.sent() + ent.sent);
                assert(y_send_sim(io_top.incoming(), files, i as nat, rf) == xy_send_after(ent.sent, nxt));
                assert(old(io).sent() + whole.sent =~= io.sent() + nxt.sent);
            }
        }
        i = i + 1;
    }
    let ghost io_last = *io;
    match wait_for_xymodem_start(io) {
        Ok(_) => {},
        Err(e) => {
            proof {
                lemma_channel_error_earlier(*old(io), io_last, *io, e);
            }
            return Err(e);
        },
    }
    let ghost before_end = io.sent();
    let ghost io_end = *io;
    let mut end_of_batch: Vec<u8> = Vec::new();
    crate::bytes::push_repeated(&mut end_of_batch, 0, 128);
    match send_xymodem_block(io, 0, XyBlockSize::Bytes128, end_of_batch.as_slice(), true) {
        Ok(()) => {},
        Err(e) => {
            proof {
                lemma_channel_error_earlier(*old(io), io_end, *io, e);
            }
            return Err(e);
        },
    }
    proof {
        assert(old(entries)@.subrange(0, i as int) =~= old(entries)@);
        assert(padded_payload(XyBlockSize::Bytes128, end_of_batch@) =~= padded_payload(
            XyBlockSize::Bytes128,
            repeat(0, 128),
        ));
        let k = choose|k: nat|
            1 <= k <= XYMODEM_RETRIES && io.sent() == before_end + repeat_seq(
                encoded_block(0, XyBlockSize::Bytes128, end_of_batch@, true),
                k,
            );
        assert(end_of_batch@ =~= repeat(0, 128));
    }
    Ok(total)
}

proof fn lemma_batch_push(
    block0s: Seq<Seq<u8>>,
    sends: Seq<YmodemEntrySend>,
    block0: Seq<u8>,
    entry: YmodemEntrySend,
)
    requires
        block0s.len() == sends.len(),
    ensures
        batch_sent(block0s.push(block0), sends.push(entry)) == batch_sent(block0s, sends)
            + entry_sent(block0, entry),
{
    assert(block0s.push(block0).drop_last() =~= block0s);
    assert(sends.push(entry).drop_last() =~= sends);
}

proof fn lemma_total_prefix_bound<R>(entries: Seq<YmodemSendStreamEntry<R>>, i: int)
    requires
        0 <= i <= entries.len(),
    ensures
        total_declared_size(entries.subrange(0, i)) <= total_declared_size(entries),
    decreases entries.len() - i,
{
    if i < entries.len() {
        lemma_total_prefix_bound(entries, i + 1);
        assert(entries.subrange(0, i + 1).drop_last() =~= entries.subrange(0, i));
    } else {
        assert(entries.subrange(0, i) =~= entries);
    }
}

/// Uploads in-memory files with YMODEM; returns the number of file bytes sent.
pub fn send_ymodem<I: ModemIo>(io: &mut I, entries: &[YmodemSendEntry]) -> (r: Result<
    u64,
    ModemTransferError,
>)
    requires
        total_entry_size(entries@) <= u64::MAX,
    ensures
        final(io).pending() <= old(io).pending(),
        r matches Ok(total) ==> total == total_entry_size(entries@),
        r matches Err(e) ==> channel_error(*old(io), *final(io), e) || (exists|k: int|
            0 <= k < entries@.len() && block0_refused(
                #[trigger] entries@[k].file_name@,
                entries@[k].file_size,
                e,
            )) || (e == ModemTransferError::UnexpectedFrame && exists|k: int|
            0 <= k < entries@.len() && #[trigger] entries@[k].bytes@.len() < entries@[k].file_size),
        old(io).reliable() ==> ({
            let sim = y_send_sim(old(io).incoming(), ymem_files(entries@), 0, old(io).read_failure());
            &&& (r is Ok <==> sim.result is Ok)
            &&& (r matches Err(e) ==> sim.result == Err::<(), ModemTransferError>(e))
            &&& final(io).sent() == old(io).sent() + sim.sent
        }),
{
    let mut stream_entries: Vec<YmodemSendStreamEntry<ByteReader>> = Vec::new();
    let mut i: usize = 0;
    while i < entries.len()
        invariant
            i <= entries@.len(),
            stream_entries@.len() == i,
            forall|k: int|
                0 <= k < i ==> #[trigger] stream_entries@[k].file_size == entries@[k].file_size,
            forall|k: int| 0 <= k < i ==> #[trigger] stream_entries@[k].reader.remaining() <= u64::MAX,
            forall|k: int| 0 <= k < i ==> #[trigger] stream_entries@[k].file_name == entries@[k].file_name,
            forall|k: int| 0 <= k < i ==> #[trigger] stream_entries@[k].reader.failure() is None,
            forall|k: int| 0 <= k < i ==> #[trigger] stream_entries@[k].reader.remaining() == entries@[k].bytes@.len(),
            forall|k: int| 0 <= k < i ==> #[trigger] stream_entries@[k].reader.unread() == entries@[k].bytes@,
        decreases entries.len() - i,
    {
        let ghost prev = stream_entries@;
        let mut bytes: Vec<u8> = Vec::new();
        bytes.extend_from_slice(entries[i].bytes.as_slice());
        let n = bytes.len();
        let reader = ByteReader::new(bytes);
        assert(reader.remaining() == n);
        stream_entries.push(
            YmodemSendStreamEntry {
                file_name: entries[i].file_name.clone(),
                file_size: entries[i].file_size,
                reader,
            },
        );
        assert(stream_entries@[i as int].reader.remaining() <= u64::MAX);
        assert forall|k: int| 0 <= k < i + 1 implies #[trigger] stream_entries@[k].reader.remaining()
            <= u64::MAX by {
            if k < i {
                assert(stream_entries@[k] == prev[k]);
                assert(prev[k].reader.remaining() <= u64::MAX);
            }
        }
        assert forall|k: int| 0 <= k < i + 1 implies #[trigger] stream_entries@[k].reader.failure() is None by {
            lemma_byte_reader_never_fails(stream_entries@[k].reader);
        }
        assert forall|k: int| 0 <= k < i + 1 implies #[trigger] stream_entries@[k].reader.remaining()
            == entries@[k].bytes@.len() by {
            if k < i {
                assert(stream_entries@[k] == prev[k]);
            }
        }
        assert forall|k: int| 0 <= k < i + 1 implies #[trigger] stream_entries@[k].reader.unread()
            == entries@[k].bytes@ by {
            if k < i {
                assert(stream_entries@[k] == prev[k]);
            }
        }
        i = i + 1;
    }
    proof {
        lemma_same_sizes(stream_entries@, entries@);
    }
    let ghost prepared = stream_entries@;
    proof {
        assert(ysend_files(prepared) =~= ymem_files(entries@));
        assert forall|k: int| 0 <= k < prepared.len() implies (#[trigger] prepared[k]).reader.failure() is None by {
            lemma_byte_reader_never_fails(prepared[k].reader);
        }
    }
    let r = send_ymodem_stream(io, &mut stream_entries);
    proof {
        if r is Err {
            let e = r->Err_0;
            assert forall|k: int| 0 <= k < stream_entries@.len() implies #[trigger] stream_entries@[k].reader.failure() is None by {
                lemma_byte_reader_never_fails(stream_entries@[k].reader);
            }
            if exists|k: int| 0 <= k < prepared.len() && entry_refused(#[trigger] prepared[k], e) {
                let k = choose|k: int| 0 <= k < prepared.len() && entry_refused(#[trigger] prepared[k], e);
                assert(block0_refused(entries@[k].file_name@, entries@[k].file_size, e));
            }
            if e == ModemTransferError::UnexpectedFrame && exists|k: int|
                0 <= k < prepared.len() && #[trigger] prepared[k].reader.remaining() < prepared[k].file_size {
                let k = choose|k: int|
                    0 <= k < prepared.len() && #[trigger] prepared[k].reader.remaining() < prepared[k].file_size;
                assert(entries@[k].bytes@.len() < entries@[k].file_size);
            }
        }
    }
    r
}

/// The total declared size of in-memory entries.
pub open spec fn total_entry_size(entries: Seq<YmodemSendEntry>) -> nat
    decreases entries.len(),
{
    if entries.len() == 0 {
        0
    } else {
        total_entry_size(entries.drop_last()) + entries.last().file_size as nat
    }
}

proof fn lemma_same_sizes<R>(a: Seq<YmodemSendStreamEntry<R>>, b: Seq<YmodemSendEntry>)
    requires
        a.len() == b.len(),
        forall|k: int| 0 <= k < a.len() ==> #[trigger] a[k].file_size == b[k].file_size,
    ensures
        total_declared_size(a) == total_entry_size(b),
    decreases a.len(),
{
    if a.len() > 0 {
        lemma_same_sizes(a.drop_last(), b.drop_last());
    }
}

/// Every completed file `k` of `hs` that announced a size received exactly that many bytes.
pub open spec fn files_match_sizes(
    written: Seq<u8>,
    starts: Seq<nat>,
    base: int,
    sizes: Seq<Option<u64>>,
) -> bool {
    forall|k: int|
        0 <= k < sizes.len() ==> (#[trigger] sizes[k] matches Some(s) ==> file_content(
            written,
            starts,
            base + k,
        ).len() == s)
}

pub open spec fn header_sizes(hs: Seq<YmodemFileHeader>) -> Seq<Option<u64>> {
    Seq::new(hs.len(), |k: int| hs[k].file_size)
}

/// A file's units as the block receiver read them: whole units (or parts
/// cut short by a failed read), the last one an EOT.
pub open spec fn units_end_with_eot(units: Seq<Seq<u8>>) -> bool {
    &&& units.len() > 0
    &&& forall|i: int| 0 <= i < units.len() ==> unit_taken(#[trigger] units[i], true)
    &&& unit_reads(units, true).last() is EndOfTransmission
}

/// Each received file holds what the block receiver kept from its units,
/// the units having been read, in order with the other files', at their
/// offset in `received`.
pub open spec fn files_from_units(
    written: Seq<u8>,
    starts: Seq<nat>,
    base: int,
    received: Seq<u8>,
    runs: Seq<Seq<Seq<u8>>>,
    offsets: Seq<nat>,
    sizes: Seq<Option<u64>>,
) -> bool {
    &&& runs.len() == sizes.len()
    &&& offsets.len() == runs.len()
    &&& forall|k: int|
        0 <= k < runs.len() ==> {
            &&& units_end_with_eot(#[trigger] runs[k])
            &&& offsets[k] + concat_units(runs[k]).len() <= received.len()
            &&& received.subrange(
                offsets[k] as int,
                (offsets[k] + concat_units(runs[k]).len()) as int,
            ) == concat_units(runs[k])
            &&& file_content(written, starts, base + k) == xy_received_data(
                unit_reads(runs[k], true),
                sizes[k],
            ).1
        }
    &&& forall|k: int|
        0 <= k < runs.len() - 1 ==> #[trigger] offsets[k] + concat_units(runs[k]).len()
            <= offsets[k + 1]
}

/// Some units, read in order at some offsets, gave the files their bytes.
pub open spec fn files_came_from_units(
    written: Seq<u8>,
    starts: Seq<nat>,
    base: int,
    received: Seq<u8>,
    sizes: Seq<Option<u64>>,
) -> bool {
    exists|runs: Seq<Seq<Seq<u8>>>, offsets: Seq<nat>|
        #[trigger] files_from_units(written, starts, base, received, runs, offsets, sizes)
}

proof fn lemma_units_more_received(
    w: Seq<u8>,
    st: Seq<nat>,
    base: int,
    r0: Seq<u8>,
    r1: Seq<u8>,
    runs: Seq<Seq<Seq<u8>>>,
    offsets: Seq<nat>,
    sizes: Seq<Option<u64>>,
)
    requires
        r1.len() >= r0.len(),
        r1.subrange(0, r0.len() as int) == r0,
        files_from_units(w, st, base, r0, runs, offsets, sizes),
    ensures
        files_from_units(w, st, base, r1, runs, offsets, sizes),
{
    assert forall|k: int| 0 <= k < runs.len() implies r1.subrange(
        offsets[k] as int,
        (offsets[k] + concat_units(#[trigger] runs[k]).len()) as int,
    ) == concat_units(runs[k]) by {
        let a = offsets[k] as int;
        let b = (offsets[k] + concat_units(runs[k]).len()) as int;
        assert(r1.subrange(a, b) =~= r0.subrange(a, b)) by {
            assert forall|j: int| 0 <= j < b - a implies r1.subrange(a, b)[j] == r0.subrange(a, b)[j] by {
                assert(r1.subrange(0, r0.len() as int)[a + j] == r0[a + j]);
            }
        }
    }
}

/// A file whose units were read right after everything before it joins the
/// files that came from units.
proof fn lemma_units_file_added(
    w0: Seq<u8>,
    s0: Seq<nat>,
    w1: Seq<u8>,
    base: int,
    r0: Seq<u8>,
    r1: Seq<u8>,
    runs: Seq<Seq<Seq<u8>>>,
    offsets: Seq<nat>,
    sizes: Seq<Option<u64>>,
    units: Seq<Seq<u8>>,
    size: Option<u64>,
)
    requires
        0 <= base,
        s0.len() == base + sizes.len(),
        forall|k: int| 0 <= k < s0.len() ==> #[trigger] s0[k] <= w0.len(),
        forall|k: int| 0 <= k < s0.len() - 1 ==> #[trigger] s0[k] <= s0[k + 1],
        files_from_units(w0, s0, base, r0, runs, offsets, sizes),
        forall|k: int| 0 <= k < runs.len() ==> offsets[k] + concat_units(#[trigger] runs[k]).len() <= r0.len(),
        received_units(r0, r1, units, true),
        w1 == w0 + xy_received_data(unit_reads(units, true), size).1,
    ensures
        files_from_units(
            w1,
            s0.push(w0.len()),
            base,
            r1,
            runs.push(units),
            offsets.push(r0.len()),
            sizes.push(size),
        ),
        forall|k: int|
            0 <= k < runs.len() + 1 ==> offsets.push(r0.len())[k] + concat_units(
                #[trigger] runs.push(units)[k],
            ).len() <= r1.len(),
{
    let s1 = s0.push(w0.len());
    let runs1 = runs.push(units);
    let offsets1 = offsets.push(r0.len());
    let sizes1 = sizes.push(size);
    let c = concat_units(units);
    let n = r0.len() + c.len();
    assert(r1.subrange(0, r0.len() as int) =~= r1.subrange(0, n as int).subrange(0, r0.len() as int));
    assert((r0 + c).subrange(0, r0.len() as int) =~= r0);
    assert(r1.subrange(r0.len() as int, n as int) =~= (r0 + c).subrange(r0.len() as int, n as int));
    assert((r0 + c).subrange(r0.len() as int, n as int) =~= c);
    assert(w1.subrange(0, w0.len() as int) =~= w0);
    lemma_units_more_received(w0, s0, base, r0, r1, runs, offsets, sizes);
    assert forall|k: int| 0 <= k < runs1.len() implies {
        &&& units_end_with_eot(#[trigger] runs1[k])
        &&& offsets1[k] + concat_units(runs1[k]).len() <= r1.len()
        &&& r1.subrange(offsets1[k] as int, (offsets1[k] + concat_units(runs1[k]).len()) as int)
            == concat_units(runs1[k])
        &&& file_content(w1, s1, base + k) == xy_received_data(unit_reads(runs1[k], true), sizes1[k]).1
    } by {
        if k < runs.len() {
            assert(runs1[k] == runs[k]);
            assert(offsets1[k] == offsets[k]);
            assert(sizes1[k] == sizes[k]);
            let a = s0[base + k] as int;
            if base + k + 1 < s0.len() {
                let b = s0[base + k + 1] as int;
                assert(w1.subrange(a, b) =~= w0.subrange(a, b)) by {
                    assert forall|j: int| 0 <= j < b - a implies w1.subrange(a, b)[j] == w0.subrange(a, b)[j] by {
                        assert(w1.subrange(0, w0.len() as int)[a + j] == w0[a + j]);
                    }
                }
            } else {
                assert(w1.subrange(a, w0.len() as int) =~= w0.subrange(a, w0.len() as int)) by {
                    assert forall|j: int| 0 <= j < w0.len() - a implies w1.subrange(a, w0.len() as int)[j]
                        == w0.subrange(a, w0.len() as int)[j] by {
                        assert(w1.subrange(0, w0.len() as int)[a + j] == w0[a + j]);
                    }
                }
            }
        } else {
            assert(file_content(w1, s1, base + k) =~= xy_received_data(unit_reads(units, true), size).1);
        }
    }
    assert forall|k: int| 0 <= k < runs1.len() - 1 implies #[trigger] offsets1[k] + concat_units(
        runs1[k],
    ).len() <= offsets1[k + 1] by {
        assert(runs1[k] == runs[k]);
        assert(offsets1[k] == offsets[k]);
        if k + 1 < runs.len() {
            assert(offsets1[k + 1] == offsets[k + 1]);
        }
    }
    assert forall|k: int| 0 <= k < runs.len() + 1 implies offsets1[k] + concat_units(
        #[trigger] runs1[k],
    ).len() <= r1.len() by {
        if k < runs.len() {
            assert(runs1[k] == runs[k]);
            assert(offsets1[k] == offsets[k]);
        }
    }
}

/// The name and size of each received YMODEM header.
pub open spec fn yheader_entries(hs: Seq<YmodemFileHeader>) -> Seq<(Seq<char>, Option<u64>)> {
    Seq::new(hs.len(), |k: int| (hs[k].file_name@, hs[k].file_size))
}

/// `raw` reads as block zero whose payload announces the name and size `h`
/// (the name decoded as UTF-8, invalid sequences replaced).
pub open spec fn block0_announces(raw: Seq<u8>, h: (Seq<char>, Option<u64>)) -> bool {
    match xy_block_read(raw, true) {
        XyRead::Block(b) => b.0 == 0 && match spec_parse_block0(b.2) {
            Ok(Some(v)) => h == (spec_utf8_lossy(v.0), v.1),
            _ => false,
        },
        _ => false,
    }
}

/// Each header `hs[k]` is what block zero `raws[k]`, read at `offsets[k]`
/// in `received`, announced; the blocks come in order.
pub open spec fn headers_from_blocks(
    received: Seq<u8>,
    hs: Seq<(Seq<char>, Option<u64>)>,
    raws: Seq<Seq<u8>>,
    offsets: Seq<nat>,
) -> bool {
    &&& raws.len() == hs.len()
    &&& offsets.len() == hs.len()
    &&& forall|k: int|
        0 <= k < hs.len() ==> {
            &&& offsets[k] + raws[k].len() <= received.len()
            &&& received.subrange(offsets[k] as int, (offsets[k] + raws[k].len()) as int)
                == #[trigger] raws[k]
            &&& block0_announces(raws[k], hs[k])
        }
    &&& forall|k: int|
        0 <= k < hs.len() - 1 ==> #[trigger] offsets[k] + raws[k].len() <= offsets[k + 1]
}

/// Some block-zero reads, in order, announced the headers `hs`.
pub open spec fn headers_came_from_blocks(received: Seq<u8>, hs: Seq<(Seq<char>, Option<u64>)>) -> bool {
    exists|raws: Seq<Seq<u8>>, offsets: Seq<nat>|
        #[trigger] headers_from_blocks(received, hs, raws, offsets)
}

proof fn lemma_blocks_more_received(
    r0: Seq<u8>,
    r1: Seq<u8>,
    hs: Seq<(Seq<char>, Option<u64>)>,
    raws: Seq<Seq<u8>>,
    offsets: Seq<nat>,
)
    requires
        r0.len() <= r1.len(),
        r1.subrange(0, r0.len() as int) == r0,
        headers_from_blocks(r0, hs, raws, offsets),
    ensures
        headers_from_blocks(r1, hs, raws, offsets),
{
    assert forall|k: int| 0 <= k < hs.len() implies r1.subrange(
        offsets[k] as int,
        (offsets[k] + raws[k].len()) as int,
    ) == #[trigger] raws[k] by {
        let a = offsets[k] as int;
        let b = (offsets[k] + raws[k].len()) as int;
        assert(r1.subrange(a, b) =~= r0.subrange(a, b)) by {
            assert forall|j: int| 0 <= j < b - a implies r1.subrange(a, b)[j] == r0.subrange(a, b)[j] by {
                assert(r1.subrange(0, r0.len() as int)[a + j] == r0[a + j]);
            }
        }
    }
}

proof fn lemma_block_added(
    r0: Seq<u8>,
    t: Seq<u8>,
    hs: Seq<(Seq<char>, Option<u64>)>,
    raws: Seq<Seq<u8>>,
    offsets: Seq<nat>,
    h: (Seq<char>, Option<u64>),
)
    requires
        headers_from_blocks(r0, hs, raws, offsets),
        block0_announces(t, h),
    ensures
        headers_from_blocks(r0 + t, hs.push(h), raws.push(t), offsets.push(r0.len())),
{
    let r1 = r0 + t;
    assert(r1.subrange(0, r0.len() as int) =~= r0);
    lemma_blocks_more_received(r0, r1, hs, raws, offsets);
    let hs1 = hs.push(h);
    let raws1 = raws.push(t);
    let offsets1 = offsets.push(r0.len());
    assert(r1.subrange(r0.len() as int, (r0.len() + t.len()) as int) =~= t);
    assert forall|k: int| 0 <= k < hs1.len() implies {
        &&& offsets1[k] + raws1[k].len() <= r1.len()
        &&& r1.subrange(offsets1[k] as int, (offsets1[k] + raws1[k].len()) as int)
            == #[trigger] raws1[k]
        &&& block0_announces(raws1[k], hs1[k])
    } by {
        if k < hs.len() {
            assert(raws1[k] == raws[k]);
            assert(hs1[k] == hs[k]);
            assert(offsets1[k] == offsets[k]);
        }
    }
    assert forall|k: int| 0 <= k < hs1.len() - 1 implies #[trigger] offsets1[k] + raws1[k].len()
        <= offsets1[k + 1] by {
        if k < hs.len() - 1 {
            assert(offsets1[k + 1] == offsets[k + 1]);
        } else {
            assert(offsets[k] + raws[k].len() <= r0.len());
        }
    }
}

/// What a YMODEM batch receiver sends and writes, and how it ends.
pub ghost struct YRecvSim {
    pub result: Result<Seq<(Seq<char>, Option<u64>)>, ModemTransferError>,
    pub sent: Seq<u8>,
    pub written: Seq<u8>,
}

/// `sim` after `bytes` were sent and `data` written first.
pub open spec fn y_after(bytes: Seq<u8>, data: Seq<u8>, sim: YRecvSim) -> YRecvSim {
    YRecvSim { sent: bytes + sim.sent, written: data + sim.written, ..sim }
}

/// A batch that ends with `e` after sending `sent` and writing `written`.
pub open spec fn y_fail(e: ModemTransferError, sent: Seq<u8>, written: Seq<u8>) -> YRecvSim {
    YRecvSim { result: Err(e), sent, written }
}

/// A YMODEM batch receiver on a reliable channel whose unread input is
/// `input`, with a sink that does not fail, the files `hs` received so far;
/// `rf` is the channel's read error. Each round asks with `C` for block
/// zero: another block number is answered with NAK and asked again; block
/// zero is acknowledged; an empty name ends the batch; otherwise `C` asks
/// for the file's blocks, received with the YMODEM EOT handshake and cut to
/// the announced size, which they must reach.
pub open spec fn y_recv_sim(
    input: Seq<u8>,
    hs: Seq<(Seq<char>, Option<u64>)>,
    rf: ModemTransferError,
) -> YRecvSim
    decreases input.len(),
{
    match xy_block_take(input, true) {
        None => y_fail(rf, seq![WANT_CRC], Seq::empty()),
        Some(n) => if n == 0 || n > input.len() {
            y_fail(rf, seq![WANT_CRC], Seq::empty())
        } else {
            let t = input.take(n as int);
            let rest = input.subrange(n as int, input.len() as int);
            match xy_block_read(t, true) {
                XyRead::Block(b) => if b.0 != 0 {
                    y_after(seq![WANT_CRC, NAK], Seq::empty(), y_recv_sim(rest, hs, rf))
                } else {
                    match spec_parse_block0(b.2) {
                        Err(e) => y_fail(ModemTransferError::Protocol(e), seq![WANT_CRC, ACK], Seq::empty()),
                        Ok(None) => YRecvSim { result: Ok(hs), sent: seq![WANT_CRC, ACK], written: Seq::empty() },
                        Ok(Some(v)) => {
                            let fh = (spec_utf8_lossy(v.0), v.1);
                            let blocks = xy_recv_sim(rest, true, v.1, true, 1, 0, 0, rf);
                            let pre = seq![WANT_CRC, ACK, WANT_CRC] + blocks.sent;
                            match blocks.result {
                                Err(e) => y_fail(e, pre, blocks.written),
                                Ok(k) => if v.1 matches Some(sz) && k < sz {
                                    y_fail(ModemTransferError::UnexpectedFrame, pre, blocks.written)
                                } else if blocks.left.len() < input.len() {
                                    y_after(pre, blocks.written, y_recv_sim(blocks.left, hs.push(fh), rf))
                                } else {
                                    y_fail(rf, pre, blocks.written)
                                },
                            }
                        },
                    }
                },
                XyRead::Failed(e) => y_fail(e, seq![WANT_CRC], Seq::empty()),
                _ => y_fail(rf, seq![WANT_CRC], Seq::empty()),
            }
        },
    }
}

/// `cur`, what is left of a batch after `sent` went out and `written` was
/// written, still gives the batch `total` that began at `sent0` and `w0`.
pub open spec fn y_tracks(
    total: YRecvSim,
    cur: YRecvSim,
    sent0: Seq<u8>,
    sent: Seq<u8>,
    w0: Seq<u8>,
    written: Seq<u8>,
) -> bool {
    &&& total.result == cur.result
    &&& sent0 + total.sent == sent + cur.sent
    &&& w0 + total.written == written + cur.written
}

/// Receives a YMODEM batch: one file of `sink` per announced file. Returns
/// the headers; each file that announced a size got exactly that many bytes.
#[verifier::rlimit(100)]
#[verifier::spinoff_prover]
pub fn receive_ymodem<I: ModemIo, W: ModemWrite>(io: &mut I, sink: &mut W) -> (r: Result<
    Vec<YmodemFileHeader>,
    ModemTransferError,
>)
    requires
        forall|k: int|
            0 <= k < old(sink).file_starts().len() ==> #[trigger] old(sink).file_starts()[k]
                <= old(sink).written().len(),
        forall|k: int|
            0 <= k < old(sink).file_starts().len() - 1 ==> #[trigger] old(sink).file_starts()[k]
                <= old(sink).file_starts()[k + 1],
    ensures
        final(io).pending() <= old(io).pending(),
        r matches Ok(hs) ==> final(sink).file_starts().len() == old(sink).file_starts().len()
            + hs@.len() && files_match_sizes(
            final(sink).written(),
            final(sink).file_starts(),
            old(sink).file_starts().len() as int,
            header_sizes(hs@),
        ),
        r matches Ok(hs) ==> files_came_from_units(
            final(sink).written(),
            final(sink).file_starts(),
            old(sink).file_starts().len() as int,
            final(io).received(),
            header_sizes(hs@),
        ),
        r matches Err(e) ==> channel_error(*old(io), *final(io), e) || final(sink).failure() == Some(e),
        r matches Ok(hs) ==> final(sink).announced() == old(sink).announced() + yheader_entries(hs@),
        r matches Ok(hs) ==> headers_came_from_blocks(final(io).received(), yheader_entries(hs@)),
        old(io).reliable() && old(sink).failure() is None ==> ({
            let sim = y_recv_sim(old(io).incoming(), Seq::empty(), old(io).read_failure());
            &&& match (r, sim.result) {
                (Ok(hs), Ok(v)) => yheader_entries(hs@) == v,
                (Err(e), Err(f)) => e == f,
                _ => false,
            }
            &&& final(io).sent() == old(io).sent() + sim.sent
            &&& r is Ok ==> final(sink).written() == old(sink).written() + sim.written
        }),
{
    let ghost rel = old(io).reliable() && old(sink).failure() is None;
    let ghost rf = old(io).read_failure();
    let ghost whole = y_recv_sim(old(io).incoming(), Seq::empty(), rf);
    let ghost base = old(sink).file_starts().len() as int;
    let mut received: Vec<YmodemFileHeader> = Vec::new();
    let ghost mut raws: Seq<Seq<u8>> = Seq::empty();
    let ghost mut offs: Seq<nat> = Seq::empty();
    assert(yheader_entries(received@) =~= Seq::<(Seq<char>, Option<u64>)>::empty());
    assert(old(sink).announced() + yheader_entries(received@) =~= old(sink).announced());
    let ghost mut runs: Seq<Seq<Seq<u8>>> = Seq::empty();
    let ghost mut offsets: Seq<nat> = Seq::empty();
    assert(header_sizes(received@) =~= Seq::<Option<u64>>::empty());
    loop
        invariant_except_break
            rel ==> y_tracks(
                whole,
                y_recv_sim(io.incoming(), yheader_entries(received@), rf),
                old(io).sent(),
                io.sent(),
                old(sink).written(),
                sink.written(),
            ),
        invariant
            files_from_units(
                sink.written(),
                sink.file_starts(),
                base,
                io.received(),
                runs,
                offsets,
                header_sizes(received@),
            ),
            forall|k: int|
                0 <= k < runs.len() ==> offsets[k] + concat_units(#[trigger] runs[k]).len()
                    <= io.received().len(),
            io.pending() <= old(io).pending(),
            sink.file_starts().len() == base + received@.len(),
            sink.file_starts().subrange(0, base) == old(sink).file_starts(),
            forall|k: int|
                0 <= k < sink.file_starts().len() ==> #[trigger] sink.file_starts()[k]
                    <= sink.written().len(),
            forall|k: int|
                0 <= k < sink.file_starts().len() - 1 ==> #[trigger] sink.file_starts()[k]
                    <= sink.file_starts()[k + 1],
            base == old(sink).file_starts().len(),
            files_match_sizes(sink.written(), sink.file_starts(), base, header_sizes(received@)),
            old(io).received().len() <= io.received().len(),
            sink.announced() == old(sink).announced() + yheader_entries(received@),
            rel == (old(io).reliable() && old(sink).failure() is None),
            rf == old(io).read_failure(),
            whole == y_recv_sim(old(io).incoming(), Seq::empty(), rf),
            rel ==> io.reliable() && sink.failure() is None && io.read_failure() == rf,
            headers_from_blocks(io.received(), yheader_entries(received@), raws, offs),
        ensures
            rel ==> whole.result == Ok::<Seq<(Seq<char>, Option<u64>)>, ModemTransferError>(
                yheader_entries(received@),
            ) && old(io).sent() + whole.sent == io.sent() && old(sink).written() + whole.written
                == sink.written(),
        decreases io.pending(),
    {
        let ghost in_top = io.incoming();
        let ghost sent_top = io.sent();
        let ghost w_top = sink.written();
        let ghost hs0 = yheader_entries(received@);
        let ghost cur0 = y_recv_sim(io.incoming(), hs0, rf);
        match write_byte(io, WANT_CRC) {
            Ok(()) => {},
            Err(e) => return Err(e),
        }
        let ghost r_start = io.received();
        let ghost io_block = *io;
        let header_block = match read_xymodem_block(io, true) {
            Ok(b) => b,
            Err(e) => {
                proof {
                    if !(!io.can_read() && e == io.read_failure()) {
                        assert(bytes_read(io_block, *io).len() > 0);
                    }
                    if rel {
                        lemma_read_split(io_block.incoming(), bytes_read(io_block, *io), io.incoming());
                        assert(io.sent() =~= sent_top + seq![WANT_CRC]);
                        assert(old(io).sent() + whole.sent =~= io.sent());
                    }
                }
                return Err(e);
            },
        };
        proof {
            if rel {
                lemma_read_split(io_block.incoming(), bytes_read(io_block, *io), io.incoming());
            }
        }
        assert(bytes_read(io_block, *io).len() > 0);
        proof {
            assert(io.received().subrange(0, r_start.len() as int) == r_start);
            lemma_units_more_received(
                sink.written(),
                sink.file_starts(),
                base,
                r_start,
                io.received(),
                runs,
                offsets,
                header_sizes(received@),
            );
        }
        let ghost r_blk = io.received();
        let ghost t0 = bytes_read(io_block, *io);
        proof {
            assert(r_blk =~= r_start + t0);
            assert(r_blk.subrange(0, r_start.len() as int) =~= r_start);
        }
        if header_block.number != 0 {
            match write_byte(io, NAK) {
                Ok(()) => {},
                Err(e) => return Err(e),
            }
            proof {
                lemma_blocks_more_received(r_start, io.received(), yheader_entries(received@), raws, offs);
                if rel {
                    let cur = y_recv_sim(io.incoming(), hs0, rf);
                    assert(cur0 == y_after(seq![WANT_CRC, NAK], Seq::empty(), cur));
                    assert(io.sent() =~= sent_top + seq![WANT_CRC, NAK]);
                    assert(old(io).sent() + whole.sent =~= io.sent() + cur.sent);
                    assert(old(sink).written() + whole.written =~= sink.written() + cur.written);
                }
            }
            continue;
        }
        match write_byte(io, ACK) {
            Ok(()) => {},
            Err(e) => return Err(e),
        }
        let header = match YmodemFileHeader::parse_block0_payload(header_block.payload.as_slice()) {
            Ok(Some(h)) => h,
            Ok(None) => {
                proof {
                    lemma_blocks_more_received(r_start, io.received(), yheader_entries(received@), raws, offs);
                    if rel {
                        assert(io.sent() =~= sent_top + seq![WANT_CRC, ACK]);
                        assert(old(io).sent() + whole.sent =~= io.sent());
                        assert(old(sink).written() + whole.written =~= sink.written());
                    }
                }
                break ;
            },
            Err(e) => {
                proof {
                    if rel {
                        assert(io.sent() =~= sent_top + seq![WANT_CRC, ACK]);
                        assert(old(io).sent() + whole.sent =~= io.sent());
                    }
                }
                return Err(ModemTransferError::Protocol(e));
            },
        };
        match write_byte(io, WANT_CRC) {
            Ok(()) => {},
            Err(e) => return Err(e),
        }
        let ghost w0 = sink.written();
        let ghost s0 = sink.file_starts();
        match sink.open_file(&header.file_name, header.file_size) {
            Ok(()) => {},
            Err(e) => return Err(e),
        }
        let ghost r_mid = io.received();
        let ghost w_mid = sink.written();
        let ghost io_blocks = *io;
        let ghost bsim = xy_recv_sim(io.incoming(), true, header.file_size, true, 1, 0, 0, rf);
        proof {
            if rel {
                assert(io.sent() =~= sent_top + seq![WANT_CRC, ACK, WANT_CRC]);
                assert(sink.written() == w_top);
            }
        }
        let bytes = match receive_xymodem_blocks(io, sink, true, header.file_size, true) {
            Ok(n) => n,
            Err(e) => {
                proof {
                    if channel_error(io_blocks, *io, e) {
                        lemma_channel_error_earlier(*old(io), io_blocks, *io, e);
                    }
                    if rel {
                        assert(io.sent() =~= sent_top + (seq![WANT_CRC, ACK, WANT_CRC] + bsim.sent));
                        assert(old(io).sent() + whole.sent =~= io.sent());
                    }
                }
                return Err(e);
            },
        };
        proof {
            let units = choose|units: Seq<Seq<u8>>|
                #[trigger] received_units(r_mid, io.received(), units, true) && sink.written()
                    == w_mid + xy_received_data(unit_reads(units, true), header.file_size).1;
            lemma_units_file_added(
                w0,
                s0,
                sink.written(),
                base,
                r_mid,
                io.received(),
                runs,
                offsets,
                header_sizes(received@),
                units,
                header.file_size,
            );
            runs = runs.push(units);
            offsets = offsets.push(r_mid.len());
            assert(header_sizes(received@.push(header)) =~= header_sizes(received@).push(header.file_size));
        }
        proof {
            if rel {
                assert(io.sent() =~= sent_top + (seq![WANT_CRC, ACK, WANT_CRC] + bsim.sent));
            }
        }
        match header.file_size {
            Some(size) => {
                if bytes < size {
                    proof {
                        if rel {
                            assert(old(io).sent() + whole.sent =~= io.sent());
                        }
                    }
                    return Err(ModemTransferError::UnexpectedFrame);
                }
            },
            None => {},
        }
        proof {
            let w1 = sink.written();
            let s1 = sink.file_starts();
            assert(s1 == s0.push(w0.len()));
            let new_sizes = header_sizes(received@.push(header));
            assert forall|k: int| 0 <= k < new_sizes.len() implies (#[trigger] new_sizes[k] matches Some(s)
                ==> file_content(w1, s1, base + k).len() == s) by {
                if k < received@.len() {
                    assert(new_sizes[k] == header_sizes(received@)[k]);
                    if base + k + 1 < s0.len() {
                        assert(file_content(w1, s1, base + k) == w1.subrange(s0[base + k] as int, s0[base + k + 1] as int));
                        assert(file_content(w0, s0, base + k) == w0.subrange(s0[base + k] as int, s0[base + k + 1] as int));
                        assert(w1.subrange(0, w0.len() as int) == w0);
                        assert(w1.subrange(s0[base + k] as int, s0[base + k + 1] as int) =~= w0.subrange(s0[base + k] as int, s0[base + k + 1] as int));
                    } else {
                        assert(base + k + 1 == s0.len());
                        assert(file_content(w1, s1, base + k) == w1.subrange(s0[base + k] as int, w0.len() as int));
                        assert(file_content(w0, s0, base + k) == w0.subrange(s0[base + k] as int, w0.len() as int));
                        assert(w1.subrange(s0[base + k] as int, w0.len() as int) =~= w0.subrange(s0[base + k] as int, w0.len() as int));
                    }
                } else {
                    assert(k == received@.len());
                    assert(base + k == s0.len());
                    assert(file_content(w1, s1, base + k) == w1.subrange(w0.len() as int, w1.len() as int));
                }
            }
            assert(s1.subrange(0, base) =~= s0.subrange(0, base));
        }
        proof {
            let h = (header.file_name@, header.file_size);
            assert(block0_announces(t0, h));
            lemma_block_added(r_start, t0, yheader_entries(received@), raws, offs, h);
            assert(io.received().subrange(0, r_blk.len() as int) =~= r_blk);
            lemma_blocks_more_received(
                r_blk,
                io.received(),
                yheader_entries(received@).push(h),
                raws.push(t0),
                offs.push(r_start.len()),
            );
            raws = raws.push(t0);
            offs = offs.push(r_start.len());
            assert(yheader_entries(received@.push(header)) =~= yheader_entries(received@).push(h));
            assert(old(sink).announced() + yheader_entries(received@).push(h) =~= (old(sink).announced()
                + yheader_entries(received@)).push(h));
        }
        proof {
            if rel {
                let h = (header.file_name@, header.file_size);
                let cur = y_recv_sim(io.incoming(), hs0.push(h), rf);
                let pre = seq![WANT_CRC, ACK, WANT_CRC] + bsim.sent;
                assert(io.incoming() == bsim.left);
                assert(bsim.left.len() < in_top.len());
                assert(cur0 == y_after(pre, bsim.written, cur));
                assert(old(io).sent() + whole.sent =~= io.sent() + cur.sent);
                assert(sink.written() =~= w_top + bsim.written);
                assert(old(sink).written() + whole.written =~= sink.written() + cur.written);
            }
        }
        received.push(header);
    }
    assert(files_from_units(
        sink.written(),
        sink.file_starts(),
        base,
        io.received(),
        runs,
        offsets,
        header_sizes(received@),
    ));
    Ok(received)
}

} // verus!
