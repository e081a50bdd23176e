//! How a ZMODEM receiver reads a header off the byte stream: it skips line
//! noise up to `ZPAD [ZPAD] ZDLE`, then reads a hex header (fourteen hex
//! digits, CR, LF) or a binary one (ZDLE-escaped bytes among which the
//! flow-control bytes are ignored). The reader is a state machine over the
//! bytes; the scan of a byte sequence is where the machine ends up.
use vstd::prelude::*;

use crate::crc::{
    crc16_byte, crc16_fold, lemma_crc16_residue, crc16_xmodem, crc16_xmodem_update, crc32_fold, crc32_ieee_update, spec_crc16_xmodem,
    spec_crc32_ieee,
};
use crate::error::{ModemError, ModemTransferError};
use crate::zmodem::{
    bin16_header_crc, lemma_le32_round_trip, le32_bytes, spec_encode_bin16_header, spec_encode_bin32_header, spec_should_escape, zdle_escape,
    zdle_escape_all, be16_bytes, frame_code, header_payload, hex_all, hex_digit, lemma_frame_code_round_trip,
    lemma_hex_all_shape, lemma_hex_digit_value, spec_encode_hex_header, le32_value, spec_data_end_from_marker, spec_data_end_marker, spec_frame_from_byte,
    spec_hex_value, ZDataEnd, ZFrameType, ZHeader, ZHeaderEncoding, XON, ZBIN, ZBIN32, ZDLE, ZHEX,
    ZPAD, ZRUB0, ZRUB1,
};

verus! {

/// The flow-control bytes a binary stream may carry anywhere: XON, XOFF and
/// their high-bit forms.
pub open spec fn is_flow_control(b: u8) -> bool {
    b == XON || b == 0x13u8 || b == 0x91u8 || b == 0x93u8
}

/// Where an escape sequence stands after `ZDLE`.
pub ghost enum EscapeState {
    /// No escape under way.
    Plain,
    /// `ZDLE` was read.
    Escape,
    /// `ZDLE ZDLE` and this many more `ZDLE` were read: five in a row cancel.
    Cancel(nat),
}

/// The byte `ZDLE e` stands for, for the escapes that stand for a byte.
pub open spec fn unescape(e: u8) -> Option<u8> {
    if e == ZRUB0 {
        Some(0x7f)
    } else if e == ZRUB1 {
        Some(0xff)
    } else if e & 0x60 == 0x40 {
        Some(e ^ 0x40)
    } else {
        None
    }
}

/// The states of the header reader.
pub ghost enum HeaderScan {
    /// Looking for `ZPAD`.
    Searching,
    /// After one `ZPAD`.
    Pad,
    /// After `ZPAD ZPAD`.
    PadPad,
    /// After the lead-in: the encoding byte comes next.
    Lead,
    /// Reading the hex digits (the digit values so far).
    Hex(Seq<u8>),
    /// A hex header whose CRC matched (its seven bytes): CR comes next.
    HexCr(Seq<u8>),
    /// Then LF.
    HexLf(Seq<u8>),
    /// Reading a binary header (CRC-32 or not, the bytes so far, the escape).
    Binary(bool, Seq<u8>, EscapeState),
    /// A header: frame type, position bytes, encoding.
    Found((ZFrameType, Seq<u8>, ZHeaderEncoding)),
    /// The header is malformed.
    Failed(ModemTransferError),
}

pub open spec fn is_terminal(s: HeaderScan) -> bool {
    s is Found || s is Failed
}

/// The header that `d` (frame type, four position bytes, ...) describes.
pub open spec fn header_from_bytes(d: Seq<u8>, encoding: ZHeaderEncoding) -> HeaderScan {
    match spec_frame_from_byte(d[0]) {
        None => HeaderScan::Failed(ModemTransferError::Protocol(ModemError::InvalidFrameType)),
        Some(t) => HeaderScan::Found((t, d.subrange(1, 5), encoding)),
    }
}

/// The bytes spelled by pairs of hex digit values.
pub open spec fn hex_pairs(n: Seq<u8>) -> Seq<u8> {
    Seq::new(n.len() / 2, |i: int| (n[2 * i] * 16 + n[2 * i + 1]) as u8)
}

/// A binary header after one more decoded byte.
pub open spec fn binary_push(bin32: bool, d: Seq<u8>, v: u8) -> HeaderScan {
    let d2 = d.push(v);
    if d2.len() < (if bin32 {
        9nat
    } else {
        7nat
    }) {
        HeaderScan::Binary(bin32, d2, EscapeState::Plain)
    } else if bin32 {
        if !crc32_fold(0xffff_ffffu32, d2.subrange(0, 5)) as nat != le32_value(d2.subrange(5, 9)) {
            HeaderScan::Failed(ModemTransferError::Protocol(ModemError::InvalidCrc))
        } else {
            header_from_bytes(d2, ZHeaderEncoding::Bin32)
        }
    } else {
        if crc16_fold(0, d2) != 0 {
            HeaderScan::Failed(ModemTransferError::Protocol(ModemError::InvalidCrc))
        } else {
            header_from_bytes(d2, ZHeaderEncoding::Bin16)
        }
    }
}

/// One byte of the header reader.
pub open spec fn header_step(s: HeaderScan, b: u8) -> HeaderScan {
    match s {
        HeaderScan::Searching => if b == ZPAD {
            HeaderScan::Pad
        } else {
            HeaderScan::Searching
        },
        HeaderScan::Pad => if b == ZPAD {
            HeaderScan::PadPad
        } else if b == ZDLE {
            HeaderScan::Lead
        } else {
            HeaderScan::Searching
        },
        HeaderScan::PadPad => if b == ZDLE {
            HeaderScan::Lead
        } else {
            HeaderScan::Searching
        },
        HeaderScan::Lead => if b == ZHEX {
            HeaderScan::Hex(Seq::empty())
        } else if b == ZBIN {
            HeaderScan::Binary(false, Seq::empty(), EscapeState::Plain)
        } else if b == ZBIN32 {
            HeaderScan::Binary(true, Seq::empty(), EscapeState::Plain)
        } else {
            HeaderScan::Failed(ModemTransferError::UnexpectedByte(b))
        },
        HeaderScan::Hex(n) => match spec_hex_value(b) {
            None => HeaderScan::Failed(ModemTransferError::UnexpectedByte(b)),
            Some(v) => {
                let n2 = n.push(v);
                if n2.len() < 14 {
                    HeaderScan::Hex(n2)
                } else {
                    let d = hex_pairs(n2);
                    if spec_crc16_xmodem(d.subrange(0, 5)) as int != d[5] * 256 + d[6] {
                        HeaderScan::Failed(ModemTransferError::Protocol(ModemError::InvalidCrc))
                    } else {
                        HeaderScan::HexCr(d)
                    }
                }
            },
        },
        HeaderScan::HexCr(d) => if b != 0x0d {
            HeaderScan::Failed(ModemTransferError::UnexpectedByte(b))
        } else {
            HeaderScan::HexLf(d)
        },
        HeaderScan::HexLf(d) => if b & 0x7f != 0x0a {
            HeaderScan::Failed(ModemTransferError::UnexpectedByte(b))
        } else {
            header_from_bytes(d, ZHeaderEncoding::Hex)
        },
        HeaderScan::Binary(bin32, d, e) => match e {
            EscapeState::Plain => if is_flow_control(b) {
                s
            } else if b == ZDLE {
                HeaderScan::Binary(bin32, d, EscapeState::Escape)
            } else {
                binary_push(bin32, d, b)
            },
            EscapeState::Escape => match unescape(b) {
                Some(v) => binary_push(bin32, d, v),
                None => if b == ZDLE {
                    HeaderScan::Binary(bin32, d, EscapeState::Cancel(0))
                } else {
                    HeaderScan::Failed(ModemTransferError::Protocol(ModemError::InvalidEscape))
                },
            },
            EscapeState::Cancel(k) => if b != ZDLE {
                HeaderScan::Failed(ModemTransferError::Protocol(ModemError::InvalidEscape))
            } else if k + 1 >= 3 {
                HeaderScan::Failed(ModemTransferError::Cancelled)
            } else {
                HeaderScan::Binary(bin32, d, EscapeState::Cancel(k + 1))
            },
        },
        HeaderScan::Found(_) => s,
        HeaderScan::Failed(_) => s,
    }
}

/// Where the header reader ends up from `s` after the bytes `t`.
pub open spec fn header_scan(s: HeaderScan, t: Seq<u8>) -> HeaderScan
    decreases t.len(),
{
    if t.len() == 0 {
        s
    } else {
        header_step(header_scan(s, t.drop_last()), t.last())
    }
}

/// The bounds every reachable state keeps.
pub open spec fn header_scan_wf(s: HeaderScan) -> bool {
    match s {
        HeaderScan::Hex(n) => n.len() < 14 && forall|i: int| 0 <= i < n.len() ==> n[i] < 16,
        HeaderScan::HexCr(d) => d.len() == 7,
        HeaderScan::HexLf(d) => d.len() == 7,
        HeaderScan::Binary(bin32, d, e) => d.len() < (if bin32 {
            9nat
        } else {
            7nat
        }) && (e matches EscapeState::Cancel(k) ==> k < 3),
        _ => true,
    }
}

/// Once the reader has found a header or failed, more bytes change nothing.
pub proof fn lemma_header_scan_terminal(s: HeaderScan, t: Seq<u8>, u: Seq<u8>)
    requires
        is_terminal(header_scan(s, t)),
    ensures
        header_scan(s, t + u) == header_scan(s, t),
    decreases u.len(),
{
    if u.len() == 0 {
        assert(t + u =~= t);
    } else {
        lemma_header_scan_terminal(s, t, u.drop_last());
        assert((t + u).drop_last() =~= t + u.drop_last());
    }
}

/// How many bytes of `input` the header reader takes from `s`: up to and
/// including the byte that brings a header or a failure; `None` when the
/// input ends first.
pub open spec fn header_take(s: HeaderScan, input: Seq<u8>) -> Option<nat>
    decreases input.len(),
{
    if is_terminal(s) {
        Some(0)
    } else if input.len() == 0 {
        None
    } else {
        match header_take(header_step(s, input[0]), input.drop_first()) {
            Some(n) => Some(n + 1),
            None => None,
        }
    }
}

pub proof fn lemma_header_scan_push(s: HeaderScan, t: Seq<u8>, b: u8)
    ensures
        header_scan(s, t.push(b)) == header_step(header_scan(s, t), b),
{
    assert(t.push(b).drop_last() =~= t);
}

/// The exec form of an escape state.
#[derive(Clone, Copy, Debug, PartialEq, Eq, Structural)]
pub enum EscapeScanner {
    Plain,
    Escape,
    Cancel(u8),
}

impl View for EscapeScanner {
    type V = EscapeState;

    open spec fn view(&self) -> EscapeState {
        match self {
            EscapeScanner::Plain => EscapeState::Plain,
            EscapeScanner::Escape => EscapeState::Escape,
            EscapeScanner::Cancel(k) => EscapeState::Cancel(*k as nat),
        }
    }
}

/// The exec form of a header reader state.
#[derive(Debug)]
pub enum HeaderScanner {
    Searching,
    Pad,
    PadPad,
    Lead,
    Hex(Vec<u8>),
    HexCr(Vec<u8>),
    HexLf(Vec<u8>),
    Binary(bool, Vec<u8>, EscapeScanner),
    Found(ZHeader),
    Failed(ModemTransferError),
}

impl View for HeaderScanner {
    type V = HeaderScan;

    open spec fn view(&self) -> HeaderScan {
        match self {
            HeaderScanner::Searching => HeaderScan::Searching,
            HeaderScanner::Pad => HeaderScan::Pad,
            HeaderScanner::PadPad => HeaderScan::PadPad,
            HeaderScanner::Lead => HeaderScan::Lead,
            HeaderScanner::Hex(n) => HeaderScan::Hex(n@),
            HeaderScanner::HexCr(d) => HeaderScan::HexCr(d@),
            HeaderScanner::HexLf(d) => HeaderScan::HexLf(d@),
            HeaderScanner::Binary(bin32, d, e) => HeaderScan::Binary(*bin32, d@, e@),
            HeaderScanner::Found(h) => HeaderScan::Found(
                (h.frame_type, h.position@, h.encoding),
            ),
            HeaderScanner::Failed(e) => HeaderScan::Failed(*e),
        }
    }
}

/// The header `d` describes.
fn header_from_decoded(d: &Vec<u8>, encoding: ZHeaderEncoding) -> (r: HeaderScanner)
    requires
        d@.len() >= 5,
    ensures
        r@ == header_from_bytes(d@, encoding),
{
    match ZFrameType::from_byte(d[0]) {
        None => HeaderScanner::Failed(ModemTransferError::Protocol(ModemError::InvalidFrameType)),
        Some(t) => {
            let position = [d[1], d[2], d[3], d[4]];
            assert(position@ =~= d@.subrange(1, 5));
            HeaderScanner::Found(ZHeader::new(t, position, encoding))
        },
    }
}

fn binary_push_exec(bin32: bool, d: Vec<u8>, v: u8) -> (r: HeaderScanner)
    requires
        d@.len() < (if bin32 {
            9nat
        } else {
            7nat
        }),
    ensures
        r@ == binary_push(bin32, d@, v),
        header_scan_wf(r@),
{
    let mut d2 = d;
    d2.push(v);
    let n: usize = if bin32 {
        9
    } else {
        7
    };
    if d2.len() < n {
        return HeaderScanner::Binary(bin32, d2, EscapeScanner::Plain);
    }
    if bin32 {
        let mut crc: u32 = 0xffff_ffff;
        let mut i: usize = 0;
        while i < 5
            invariant
                i <= 5,
                d2@.len() == 9,
                crc == crc32_fold(0xffff_ffffu32, d2@.subrange(0, i as int)),
            decreases 5 - i,
        {
            assert(d2@.subrange(0, i + 1).drop_last() =~= d2@.subrange(0, i as int));
            crc = crc32_ieee_update(crc, d2[i]);
            i = i + 1;
        }
        let received = d2[5] as u32 + d2[6] as u32 * 256 + d2[7] as u32 * 65536 + d2[8] as u32
            * 16777216;
        assert(received as nat == le32_value(d2@.subrange(5, 9)));
        if !crc != received {
            return HeaderScanner::Failed(ModemTransferError::Protocol(ModemError::InvalidCrc));
        }
        header_from_decoded(&d2, ZHeaderEncoding::Bin32)
    } else {
        let mut crc: u16 = 0;
        let mut i: usize = 0;
        while i < 7
            invariant
                i <= 7,
                d2@.len() == 7,
                crc == crc16_fold(0, d2@.subrange(0, i as int)),
            decreases 7 - i,
        {
            assert(d2@.subrange(0, i + 1).drop_last() =~= d2@.subrange(0, i as int));
            crc = crc16_xmodem_update(crc, d2[i]);
            i = i + 1;
        }
        assert(d2@.subrange(0, 7) =~= d2@);
        if crc != 0 {
            return HeaderScanner::Failed(ModemTransferError::Protocol(ModemError::InvalidCrc));
        }
        header_from_decoded(&d2, ZHeaderEncoding::Bin16)
    }
}

/// The value of a hex digit of either case.
fn hex_digit_value(b: u8) -> (r: Option<u8>)
    ensures
        r == spec_hex_value(b),
{
    if 0x30 <= b && b <= 0x39 {
        Some(b - 0x30)
    } else if 0x61 <= b && b <= 0x66 {
        Some(b - 0x61 + 10)
    } else if 0x41 <= b && b <= 0x46 {
        Some(b - 0x41 + 10)
    } else {
        None
    }
}

impl HeaderScanner {
    /// Feeds one byte to the reader.
    pub fn step(self, b: u8) -> (r: Self)
        requires
            header_scan_wf(self@),
        ensures
            r@ == header_step(self@, b),
            header_scan_wf(r@),
    {
        match self {
            HeaderScanner::Searching => if b == ZPAD {
                HeaderScanner::Pad
            } else {
                HeaderScanner::Searching
            },
            HeaderScanner::Pad => if b == ZPAD {
                HeaderScanner::PadPad
            } else if b == ZDLE {
                HeaderScanner::Lead
            } else {
                HeaderScanner::Searching
            },
            HeaderScanner::PadPad => if b == ZDLE {
                HeaderScanner::Lead
            } else {
                HeaderScanner::Searching
            },
            HeaderScanner::Lead => if b == ZHEX {
                HeaderScanner::Hex(Vec::new())
            } else if b == ZBIN {
                HeaderScanner::Binary(false, Vec::new(), EscapeScanner::Plain)
            } else if b == ZBIN32 {
                HeaderScanner::Binary(true, Vec::new(), EscapeScanner::Plain)
            } else {
                HeaderScanner::Failed(ModemTransferError::UnexpectedByte(b))
            },
            HeaderScanner::Hex(n) => match hex_digit_value(b) {
                None => HeaderScanner::Failed(ModemTransferError::UnexpectedByte(b)),
                Some(v) => {
                    let mut n2 = n;
                    n2.push(v);
                    if n2.len() < 14 {
                        return HeaderScanner::Hex(n2);
                    }
                    let mut d: Vec<u8> = Vec::new();
                    let mut i: usize = 0;
                    while i < 7
                        invariant
                            i <= 7,
                            n2@.len() == 14,
                            forall|j: int| 0 <= j < 14 ==> n2@[j] < 16,
                            d@ == hex_pairs(n2@).subrange(0, i as int),
                        decreases 7 - i,
                    {
                        let hi = n2[2 * i];
                        let lo = n2[2 * i + 1];
                        d.push(hi * 16 + lo);
                        i = i + 1;
                        assert(d@ =~= hex_pairs(n2@).subrange(0, i as int));
                    }
                    assert(d@ =~= hex_pairs(n2@));
                    let head = crate::bytes::copy_range(d.as_slice(), 0, 5);
                    let expected = crc16_xmodem(head.as_slice());
                    let received = d[5] as u16 * 256 + d[6] as u16;
                    if expected != received {
                        HeaderScanner::Failed(ModemTransferError::Protocol(ModemError::InvalidCrc))
                    } else {
                        HeaderScanner::HexCr(d)
                    }
                },
            },
            HeaderScanner::HexCr(d) => if b != 0x0d {
                HeaderScanner::Failed(ModemTransferError::UnexpectedByte(b))
            } else {
                HeaderScanner::HexLf(d)
            },
            HeaderScanner::HexLf(d) => if b & 0x7f != 0x0a {
                HeaderScanner::Failed(ModemTransferError::UnexpectedByte(b))
            } else {
                header_from_decoded(&d, ZHeaderEncoding::Hex)
            },
            HeaderScanner::Binary(bin32, d, e) => match e {
                EscapeScanner::Plain => if b == XON || b == 0x13 || b == 0x91 || b == 0x93 {
                    HeaderScanner::Binary(bin32, d, EscapeScanner::Plain)
                } else if b == ZDLE {
                    HeaderScanner::Binary(bin32, d, EscapeScanner::Escape)
                } else {
                    binary_push_exec(bin32, d, b)
                },
                EscapeScanner::Escape => {
                    if b == ZRUB0 {
                        binary_push_exec(bin32, d, 0x7f)
                    } else if b == ZRUB1 {
                        binary_push_exec(bin32, d, 0xff)
                    } else if b & 0x60 == 0x40 {
                        binary_push_exec(bin32, d, b ^ 0x40)
                    } else if b == ZDLE {
                        HeaderScanner::Binary(bin32, d, EscapeScanner::Cancel(0))
                    } else {
                        HeaderScanner::Failed(
                            ModemTransferError::Protocol(ModemError::InvalidEscape),
                        )
                    }
                },
                EscapeScanner::Cancel(k) => if b != ZDLE {
                    HeaderScanner::Failed(ModemTransferError::Protocol(ModemError::InvalidEscape))
                } else if k + 1 >= 3 {
                    HeaderScanner::Failed(ModemTransferError::Cancelled)
                } else {
                    HeaderScanner::Binary(bin32, d, EscapeScanner::Cancel(k + 1))
                },
            },
            HeaderScanner::Found(h) => HeaderScanner::Found(h),
            HeaderScanner::Failed(e) => HeaderScanner::Failed(e),
        }
    }
}


/// The reader never reports a timeout of its own.
pub open spec fn no_timeout(s: HeaderScan) -> bool {
    !(s matches HeaderScan::Failed(ModemTransferError::Timeout))
}

pub proof fn lemma_header_scan_no_timeout(t: Seq<u8>)
    ensures
        no_timeout(header_scan(HeaderScan::Searching, t)),
    decreases t.len(),
{
    if t.len() > 0 {
        lemma_header_scan_no_timeout(t.drop_last());
    }
}

/// How a header at the front of some bytes reads: the header; `None` when
/// the bytes end first; the protocol error of a malformed header (any other
/// failure counts as a bad marker).
pub open spec fn spec_header_prefix(bytes: Seq<u8>) -> Result<
    Option<(ZFrameType, Seq<u8>, ZHeaderEncoding)>,
    ModemError,
> {
    match header_scan(HeaderScan::Searching, bytes) {
        HeaderScan::Found(h) => Ok(Some(h)),
        HeaderScan::Failed(ModemTransferError::Protocol(e)) => Err(e),
        HeaderScan::Failed(_) => Err(ModemError::InvalidMarker),
        _ => Ok(None),
    }
}


/// The states of the data-subpacket reader.
pub ghost enum DataScan {
    /// Reading the payload (the bytes so far, the escape state).
    Payload(Seq<u8>, EscapeState),
    /// Reading the CRC after the end marker (payload, how it ended, the CRC
    /// bytes so far, the escape state).
    Trailer(Seq<u8>, ZDataEnd, Seq<u8>, EscapeState),
    /// A subpacket whose CRC matched.
    Found(Seq<u8>, ZDataEnd),
    /// The subpacket is malformed or too long.
    Failed(ModemTransferError),
}

pub open spec fn data_start() -> DataScan {
    DataScan::Payload(Seq::empty(), EscapeState::Plain)
}

pub open spec fn data_is_terminal(s: DataScan) -> bool {
    s is Found || s is Failed
}

/// A subpacket after one more CRC byte.
pub open spec fn trailer_push(p: Seq<u8>, end: ZDataEnd, c: Seq<u8>, v: u8, crc32: bool) -> DataScan {
    let c2 = c.push(v);
    let covered = p.push(spec_data_end_marker(end));
    if c2.len() < (if crc32 {
        4nat
    } else {
        2nat
    }) {
        DataScan::Trailer(p, end, c2, EscapeState::Plain)
    } else if crc32 {
        if !crc32_fold(0xffff_ffffu32, covered) as nat != le32_value(c2) {
            DataScan::Failed(ModemTransferError::Protocol(ModemError::InvalidCrc))
        } else {
            DataScan::Found(p, end)
        }
    } else {
        if crc16_fold(0, covered + c2) != 0 {
            DataScan::Failed(ModemTransferError::Protocol(ModemError::InvalidCrc))
        } else {
            DataScan::Found(p, end)
        }
    }
}

/// What a third or later `ZDLE` of a cancel sequence does.
pub open spec fn cancel_step(k: nat, b: u8) -> Option<ModemTransferError> {
    if b != ZDLE {
        Some(ModemTransferError::Protocol(ModemError::InvalidEscape))
    } else if k + 1 >= 3 {
        Some(ModemTransferError::Cancelled)
    } else {
        None
    }
}

/// One byte of the data-subpacket reader, for a CRC-32 subpacket or not, of
/// at most `max` payload bytes.
pub open spec fn data_step(s: DataScan, b: u8, crc32: bool, max: nat) -> DataScan {
    match s {
        DataScan::Payload(p, e) => match e {
            EscapeState::Plain => if is_flow_control(b) {
                s
            } else if b == ZDLE {
                DataScan::Payload(p, EscapeState::Escape)
            } else if p.len() >= max {
                DataScan::Failed(ModemTransferError::Protocol(ModemError::InvalidLength))
            } else {
                DataScan::Payload(p.push(b), EscapeState::Plain)
            },
            EscapeState::Escape => match spec_data_end_from_marker(b) {
                Some(end) => DataScan::Trailer(p, end, Seq::empty(), EscapeState::Plain),
                None => if p.len() >= max {
                    DataScan::Failed(ModemTransferError::Protocol(ModemError::InvalidLength))
                } else {
                    match unescape(b) {
                        Some(v) => DataScan::Payload(p.push(v), EscapeState::Plain),
                        None => if b == ZDLE {
                            DataScan::Payload(p, EscapeState::Cancel(0))
                        } else {
                            DataScan::Failed(
                                ModemTransferError::Protocol(ModemError::InvalidEscape),
                            )
                        },
                    }
                },
            },
            EscapeState::Cancel(k) => match cancel_step(k, b) {
                Some(err) => DataScan::Failed(err),
                None => DataScan::Payload(p, EscapeState::Cancel(k + 1)),
            },
        },
        DataScan::Trailer(p, end, c, e) => match e {
            EscapeState::Plain => if is_flow_control(b) {
                s
            } else if b == ZDLE {
                DataScan::Trailer(p, end, c, EscapeState::Escape)
            } else {
                trailer_push(p, end, c, b, crc32)
            },
            EscapeState::Escape => match unescape(b) {
                Some(v) => trailer_push(p, end, c, v, crc32),
                None => if b == ZDLE {
                    DataScan::Trailer(p, end, c, EscapeState::Cancel(0))
                } else {
                    DataScan::Failed(ModemTransferError::Protocol(ModemError::InvalidEscape))
                },
            },
            EscapeState::Cancel(k) => match cancel_step(k, b) {
                Some(err) => DataScan::Failed(err),
                None => DataScan::Trailer(p, end, c, EscapeState::Cancel(k + 1)),
            },
        },
        DataScan::Found(_, _) => s,
        DataScan::Failed(_) => s,
    }
}

/// Where the data-subpacket reader ends up from `s` after the bytes `t`.
pub open spec fn data_scan(s: DataScan, t: Seq<u8>, crc32: bool, max: nat) -> DataScan
    decreases t.len(),
{
    if t.len() == 0 {
        s
    } else {
        data_step(data_scan(s, t.drop_last(), crc32, max), t.last(), crc32, max)
    }
}

pub open spec fn data_scan_wf(s: DataScan, crc32: bool, max: nat) -> bool {
    match s {
        DataScan::Payload(p, e) => p.len() <= max && (e matches EscapeState::Cancel(k) ==> k < 3),
        DataScan::Trailer(p, end, c, e) => c.len() < (if crc32 {
            4nat
        } else {
            2nat
        }) && (e matches EscapeState::Cancel(k) ==> k < 3),
        _ => true,
    }
}

/// How many bytes of `input` the subpacket reader takes from `s`: up to
/// and including the byte that brings a subpacket or a failure; `None` when
/// the input ends first.
pub open spec fn data_take(s: DataScan, input: Seq<u8>, crc32: bool, max: nat) -> Option<nat>
    decreases input.len(),
{
    if data_is_terminal(s) {
        Some(0)
    } else if input.len() == 0 {
        None
    } else {
        match data_take(data_step(s, input[0], crc32, max), input.drop_first(), crc32, max) {
            Some(n) => Some(n + 1),
            None => None,
        }
    }
}

pub proof fn lemma_data_scan_push(s: DataScan, t: Seq<u8>, b: u8, crc32: bool, max: nat)
    ensures
        data_scan(s, t.push(b), crc32, max) == data_step(data_scan(s, t, crc32, max), b, crc32, max),
{
    assert(t.push(b).drop_last() =~= t);
}

/// Once the reader has a subpacket or has failed, more bytes change nothing.
pub proof fn lemma_data_scan_terminal(s: DataScan, t: Seq<u8>, u: Seq<u8>, crc32: bool, max: nat)
    requires
        data_is_terminal(data_scan(s, t, crc32, max)),
    ensures
        data_scan(s, t + u, crc32, max) == data_scan(s, t, crc32, max),
    decreases u.len(),
{
    if u.len() == 0 {
        assert(t + u =~= t);
    } else {
        lemma_data_scan_terminal(s, t, u.drop_last(), crc32, max);
        assert((t + u).drop_last() =~= t + u.drop_last());
    }
}

/// The exec form of a data-subpacket reader state.
#[derive(Debug)]
pub enum DataScanner {
    Payload(Vec<u8>, EscapeScanner),
    Trailer(Vec<u8>, ZDataEnd, Vec<u8>, EscapeScanner),
    Found(Vec<u8>, ZDataEnd),
    Failed(ModemTransferError),
}

impl View for DataScanner {
    type V = DataScan;

    open spec fn view(&self) -> DataScan {
        match self {
            DataScanner::Payload(p, e) => DataScan::Payload(p@, e@),
            DataScanner::Trailer(p, end, c, e) => DataScan::Trailer(p@, *end, c@, e@),
            DataScanner::Found(p, end) => DataScan::Found(p@, *end),
            DataScanner::Failed(e) => DataScan::Failed(*e),
        }
    }
}

fn trailer_push_exec(p: Vec<u8>, end: ZDataEnd, c: Vec<u8>, v: u8, crc32: bool) -> (r: DataScanner)
    requires
        c@.len() < (if crc32 {
            4nat
        } else {
            2nat
        }),
    ensures
        r@ == trailer_push(p@, end, c@, v, crc32),
{
    let mut c2 = c;
    c2.push(v);
    let n: usize = if crc32 {
        4
    } else {
        2
    };
    if c2.len() < n {
        return DataScanner::Trailer(p, end, c2, EscapeScanner::Plain);
    }
    let marker = end.marker();
    let ghost covered = p@.push(marker);
    if crc32 {
        let mut crc: u32 = 0xffff_ffff;
        let mut i: usize = 0;
        while i < p.len()
            invariant
                i <= p@.len(),
                crc == crc32_fold(0xffff_ffffu32, p@.subrange(0, i as int)),
            decreases p.len() - i,
        {
            assert(p@.subrange(0, i + 1).drop_last() =~= p@.subrange(0, i as int));
            crc = crc32_ieee_update(crc, p[i]);
            i = i + 1;
        }
        assert(p@.subrange(0, i as int) =~= p@);
        assert(covered.drop_last() =~= p@);
        crc = crc32_ieee_update(crc, marker);
        let received = c2[0] as u32 + c2[1] as u32 * 256 + c2[2] as u32 * 65536 + c2[3] as u32
            * 16777216;
        assert(received as nat == le32_value(c2@));
        if !crc != received {
            return DataScanner::Failed(ModemTransferError::Protocol(ModemError::InvalidCrc));
        }
        DataScanner::Found(p, end)
    } else {
        let mut crc: u16 = 0;
        let mut i: usize = 0;
        while i < p.len()
            invariant
                i <= p@.len(),
                crc == crc16_fold(0, p@.subrange(0, i as int)),
            decreases p.len() - i,
        {
            assert(p@.subrange(0, i + 1).drop_last() =~= p@.subrange(0, i as int));
            crc = crc16_xmodem_update(crc, p[i]);
            i = i + 1;
        }
        assert(p@.subrange(0, i as int) =~= p@);
        let ghost all = covered + c2@;
        assert(all.drop_last().drop_last().drop_last() =~= p@);
        assert(all.drop_last().drop_last() =~= covered);
        assert(all.drop_last() =~= covered.push(c2@[0]));
        crc = crc16_xmodem_update(crc, marker);
        assert(crc == crc16_fold(0, covered));
        crc = crc16_xmodem_update(crc, c2[0]);
        assert(crc == crc16_fold(0, covered.push(c2@[0])));
        crc = crc16_xmodem_update(crc, c2[1]);
        assert(all =~= covered.push(c2@[0]).push(c2@[1]));
        assert(crc == crc16_fold(0, all));
        if crc != 0 {
            return DataScanner::Failed(ModemTransferError::Protocol(ModemError::InvalidCrc));
        }
        DataScanner::Found(p, end)
    }
}

impl DataScanner {
    /// Feeds one byte to the reader.
    pub fn step(self, b: u8, crc32: bool, max: usize) -> (r: Self)
        requires
            data_scan_wf(self@, crc32, max as nat),
        ensures
            r@ == data_step(self@, b, crc32, max as nat),
            data_scan_wf(r@, crc32, max as nat),
    {
        match self {
            DataScanner::Payload(p, e) => match e {
                EscapeScanner::Plain => if b == XON || b == 0x13 || b == 0x91 || b == 0x93 {
                    DataScanner::Payload(p, EscapeScanner::Plain)
                } else if b == ZDLE {
                    DataScanner::Payload(p, EscapeScanner::Escape)
                } else if p.len() >= max {
                    DataScanner::Failed(ModemTransferError::Protocol(ModemError::InvalidLength))
                } else {
                    let mut p2 = p;
                    p2.push(b);
                    DataScanner::Payload(p2, EscapeScanner::Plain)
                },
                EscapeScanner::Escape => match ZDataEnd::from_marker(b) {
                    Some(end) => DataScanner::Trailer(p, end, Vec::new(), EscapeScanner::Plain),
                    None => {
                        if p.len() >= max {
                            return DataScanner::Failed(
                                ModemTransferError::Protocol(ModemError::InvalidLength),
                            );
                        }
                        let decoded = if b == ZRUB0 {
                            Some(0x7fu8)
                        } else if b == ZRUB1 {
                            Some(0xffu8)
                        } else if b & 0x60 == 0x40 {
                            Some(b ^ 0x40)
                        } else {
                            None
                        };
                        match decoded {
                            Some(v) => {
                                let mut p2 = p;
                                p2.push(v);
                                DataScanner::Payload(p2, EscapeScanner::Plain)
                            },
                            None => if b == ZDLE {
                                DataScanner::Payload(p, EscapeScanner::Cancel(0))
                            } else {
                                DataScanner::Failed(
                                    ModemTransferError::Protocol(ModemError::InvalidEscape),
                                )
                            },
                        }
                    },
                },
                EscapeScanner::Cancel(k) => if b != ZDLE {
                    DataScanner::Failed(ModemTransferError::Protocol(ModemError::InvalidEscape))
                } else if k + 1 >= 3 {
                    DataScanner::Failed(ModemTransferError::Cancelled)
                } else {
                    DataScanner::Payload(p, EscapeScanner::Cancel(k + 1))
                },
            },
            DataScanner::Trailer(p, end, c, e) => match e {
                EscapeScanner::Plain => if b == XON || b == 0x13 || b == 0x91 || b == 0x93 {
                    DataScanner::Trailer(p, end, c, EscapeScanner::Plain)
                } else if b == ZDLE {
                    DataScanner::Trailer(p, end, c, EscapeScanner::Escape)
                } else {
                    trailer_push_exec(p, end, c, b, crc32)
                },
                EscapeScanner::Escape => {
                    if b == ZRUB0 {
                        trailer_push_exec(p, end, c, 0x7f, crc32)
                    } else if b == ZRUB1 {
                        trailer_push_exec(p, end, c, 0xff, crc32)
                    } else if b & 0x60 == 0x40 {
                        trailer_push_exec(p, end, c, b ^ 0x40, crc32)
                    } else if b == ZDLE {
                        DataScanner::Trailer(p, end, c, EscapeScanner::Cancel(0))
                    } else {
                        DataScanner::Failed(
                            ModemTransferError::Protocol(ModemError::InvalidEscape),
                        )
                    }
                },
                EscapeScanner::Cancel(k) => if b != ZDLE {
                    DataScanner::Failed(ModemTransferError::Protocol(ModemError::InvalidEscape))
                } else if k + 1 >= 3 {
                    DataScanner::Failed(ModemTransferError::Cancelled)
                } else {
                    DataScanner::Trailer(p, end, c, EscapeScanner::Cancel(k + 1))
                },
            },
            DataScanner::Found(p, end) => DataScanner::Found(p, end),
            DataScanner::Failed(e) => DataScanner::Failed(e),
        }
    }
}


pub proof fn lemma_header_scan_concat(s: HeaderScan, a: Seq<u8>, b: Seq<u8>)
    ensures
        header_scan(s, a + b) == header_scan(header_scan(s, a), b),
    decreases b.len(),
{
    if b.len() == 0 {
        assert(a + b =~= a);
    } else {
        lemma_header_scan_concat(s, a, b.drop_last());
        assert((a + b).drop_last() =~= a + b.drop_last());
    }
}

/// The hex digit values of the bytes of `c`, high digit first.
pub open spec fn nibbles(c: Seq<u8>) -> Seq<u8> {
    Seq::new(2 * c.len(), |j: int| if j % 2 == 0 {
        c[j / 2] / 16
    } else {
        c[j / 2] % 16
    })
}

proof fn lemma_hex_digits_scan(c: Seq<u8>, k: int)
    requires
        c.len() == 7,
        0 <= k < 14,
    ensures
        header_scan(HeaderScan::Hex(Seq::empty()), hex_all(c).subrange(0, k)) == HeaderScan::Hex(
            nibbles(c).subrange(0, k),
        ),
    decreases k,
{
    lemma_hex_all_shape(c);
    if k > 0 {
        lemma_hex_digits_scan(c, k - 1);
        let h = hex_all(c).subrange(0, k);
        assert(h.drop_last() =~= hex_all(c).subrange(0, k - 1));
        let n = nibbles(c);
        assert(h.last() == hex_digit(n[k - 1])) by {
            let i = (k - 1) / 2;
            if (k - 1) % 2 == 0 {
                assert(k - 1 == 2 * i);
            } else {
                assert(k - 1 == 2 * i + 1);
            }
        }
        lemma_hex_digit_value(n[k - 1]);
        assert(nibbles(c).subrange(0, k - 1).push(n[k - 1]) =~= nibbles(c).subrange(0, k));
    } else {
        assert(hex_all(c).subrange(0, 0) =~= Seq::<u8>::empty());
        assert(nibbles(c).subrange(0, 0) =~= Seq::<u8>::empty());
    }
}

proof fn lemma_hex_lead_scan()
    ensures
        header_scan(HeaderScan::Searching, seq![ZPAD, ZPAD, ZDLE, ZHEX]) == HeaderScan::Hex(
            Seq::empty(),
        ),
{
    let lead = seq![ZPAD, ZPAD, ZDLE, ZHEX];
    reveal_with_fuel(header_scan, 5);
    assert(lead.drop_last().drop_last().drop_last().drop_last() =~= Seq::<u8>::empty());
    assert(lead.drop_last().drop_last().drop_last() =~= seq![ZPAD]);
    assert(lead.drop_last().drop_last() =~= seq![ZPAD, ZPAD]);
    assert(lead.drop_last() =~= seq![ZPAD, ZPAD, ZDLE]);
}

proof fn lemma_hex_body_scan(c: Seq<u8>)
    requires
        c.len() == 7,
        spec_crc16_xmodem(c.subrange(0, 5)) as int == c[5] * 256 + c[6],
    ensures
        header_scan(HeaderScan::Hex(Seq::empty()), hex_all(c)) == HeaderScan::HexCr(c),
{
    let h = hex_all(c);
    lemma_hex_all_shape(c);
    lemma_hex_digits_scan(c, 13);
    let n = nibbles(c);
    assert(h =~= h.subrange(0, 13).push(h[13]));
    assert(h[13] == hex_digit(n[13])) by {
        assert(13 == 2 * 6 + 1);
    }
    lemma_hex_digit_value(n[13]);
    assert(n.subrange(0, 13).push(n[13]) =~= n);
    lemma_header_scan_push(HeaderScan::Hex(Seq::empty()), h.subrange(0, 13), h[13]);
    assert(hex_pairs(n) =~= c) by {
        assert forall|i: int| 0 <= i < 7 implies #[trigger] hex_pairs(n)[i] == c[i] by {
            assert(n[2 * i] == c[i] / 16);
            assert(n[2 * i + 1] == c[i] % 16);
            assert(c[i] == (c[i] / 16) * 16 + c[i] % 16);
        }
    }
}

proof fn lemma_hex_tail_scan(t: ZFrameType, c: Seq<u8>)
    requires
        c.len() == 7,
        c[0] == frame_code(t),
    ensures
        header_scan(HeaderScan::HexCr(c), seq![0x0du8, 0x8au8]) == HeaderScan::Found(
            (t, c.subrange(1, 5), ZHeaderEncoding::Hex),
        ),
{
    let tail = seq![0x0du8, 0x8au8];
    reveal_with_fuel(header_scan, 3);
    assert(0x8au8 & 0x7fu8 == 0x0au8) by (bit_vector);
    assert(tail.drop_last() =~= seq![0x0du8]);
    assert(seq![0x0du8].drop_last() =~= Seq::<u8>::empty());
    lemma_frame_code_round_trip(t);
}

/// A hex header as sent is read back by the header reader: the frame type
/// and position it was built from.
pub proof fn lemma_hex_header_read_back(t: ZFrameType, position: Seq<u8>, include_xon: bool)
    requires
        position.len() == 4,
    ensures
        header_scan(HeaderScan::Searching, spec_encode_hex_header(t, position, include_xon))
            == HeaderScan::Found((t, position, ZHeaderEncoding::Hex)),
{
    let payload = header_payload(t, position);
    let crc = spec_crc16_xmodem(payload);
    let c = payload + be16_bytes(crc);
    let lead = seq![ZPAD, ZPAD, ZDLE, ZHEX];
    let h = hex_all(c);
    let tail = seq![0x0du8, 0x8au8];
    let e = spec_encode_hex_header(t, position, include_xon);
    assert(c.subrange(0, 5) =~= payload);
    assert(crc == (crc / 256) * 256 + crc % 256);
    lemma_hex_lead_scan();
    lemma_hex_body_scan(c);
    lemma_hex_tail_scan(t, c);
    assert(c.subrange(1, 5) =~= position);
    lemma_header_scan_concat(HeaderScan::Searching, lead, h);
    lemma_header_scan_concat(HeaderScan::Searching, lead + h, tail);
    let xon = if include_xon {
        seq![XON]
    } else {
        Seq::empty()
    };
    assert(e =~= lead + h + tail + xon);
    lemma_header_scan_terminal(HeaderScan::Searching, lead + h + tail, xon);
}


/// The lead of a hex header leaves the header reader still reading.
proof fn lemma_hex_lead_prefix(k: nat)
    requires
        k <= 4,
    ensures
        !is_terminal(header_scan(HeaderScan::Searching, seq![ZPAD, ZPAD, ZDLE, ZHEX].take(k as int))),
{
    let lead = seq![ZPAD, ZPAD, ZDLE, ZHEX];
    let q = lead.take(k as int);
    reveal_with_fuel(header_scan, 5);
    if k == 0 {
        assert(q =~= Seq::<u8>::empty());
    } else if k == 1 {
        assert(q.drop_last() =~= Seq::<u8>::empty());
    } else if k == 2 {
        assert(q.drop_last() =~= seq![ZPAD]);
        assert(q.drop_last().drop_last() =~= Seq::<u8>::empty());
    } else if k == 3 {
        assert(q.drop_last() =~= seq![ZPAD, ZPAD]);
        assert(q.drop_last().drop_last() =~= seq![ZPAD]);
        assert(q.drop_last().drop_last().drop_last() =~= Seq::<u8>::empty());
    } else {
        assert(q =~= lead);
        lemma_hex_lead_scan();
    }
}

/// The header reader does not stop inside a hex header as sent: every
/// prefix shorter than the header up to its line end leaves it still
/// reading.
pub proof fn lemma_hex_header_no_early_stop(t: ZFrameType, position: Seq<u8>, include_xon: bool, k: nat)
    requires
        position.len() == 4,
        k < 20,
    ensures
        !is_terminal(header_scan(HeaderScan::Searching, spec_encode_hex_header(t, position, include_xon).take(k as int))),
{
    let payload = header_payload(t, position);
    let crc = spec_crc16_xmodem(payload);
    let c = payload + be16_bytes(crc);
    let lead = seq![ZPAD, ZPAD, ZDLE, ZHEX];
    let h = hex_all(c);
    let tail = seq![0x0du8, 0x8au8];
    let e = spec_encode_hex_header(t, position, include_xon);
    let xon = if include_xon {
        seq![XON]
    } else {
        Seq::empty()
    };
    assert(e =~= lead + h + tail + xon);
    assert(c.subrange(0, 5) =~= payload);
    assert(crc == (crc / 256) * 256 + crc % 256);
    lemma_hex_all_shape(c);
    let q = e.take(k as int);
    if k <= 4 {
        assert(q =~= seq![ZPAD, ZPAD, ZDLE, ZHEX].take(k as int));
        lemma_hex_lead_prefix(k);
    } else if k <= 18 {
        let j = (k - 4) as int;
        assert(q =~= lead + h.subrange(0, j));
        lemma_hex_lead_scan();
        lemma_header_scan_concat(HeaderScan::Searching, lead, h.subrange(0, j));
        if j < 14 {
            lemma_hex_digits_scan(c, j);
        } else {
            assert(h.subrange(0, j) =~= h);
            lemma_hex_body_scan(c);
        }
    } else {
        assert(q =~= (lead + h).push(0x0du8));
        lemma_hex_lead_scan();
        lemma_hex_body_scan(c);
        lemma_header_scan_concat(HeaderScan::Searching, lead, h);
        lemma_header_scan_push(HeaderScan::Searching, lead + h, 0x0du8);
    }
}

/// How an escaped byte reads back: a plain byte is neither `ZDLE` nor flow
/// control; an escape is `ZDLE` and a byte that unescapes to it and is no
/// end marker.
pub proof fn lemma_escape_reads_back(v: u8, escape_control: bool)
    ensures
        zdle_escape(v, escape_control).len() == 1 ==> zdle_escape(v, escape_control)[0] == v && v
            != ZDLE && !is_flow_control(v),
        zdle_escape(v, escape_control).len() == 2 ==> zdle_escape(v, escape_control)[0] == ZDLE
            && unescape(zdle_escape(v, escape_control)[1]) == Some(v)
            && spec_data_end_from_marker(zdle_escape(v, escape_control)[1]) is None,
        zdle_escape(v, escape_control).len() == 1 || zdle_escape(v, escape_control).len() == 2,
{
    if spec_should_escape(v) || (escape_control && v & 0x60u8 == 0u8) {
        let x = v ^ 0x40u8;
        assert(x & 0x60u8 == 0x40u8 && x ^ 0x40u8 == v && x != ZRUB0 && x != ZRUB1 && x != 0x68u8
            && x != 0x69u8 && x != 0x6au8 && x != 0x6bu8) by (bit_vector)
            requires
                x == v ^ 0x40u8,
                (v == 0x18u8 || v == 0x10u8 || v == 0x11u8 || v == 0x13u8 || v == 0x90u8 || v
                    == 0x91u8 || v == 0x93u8) || v & 0x60u8 == 0u8,
        ;
    }
}

/// One escaped byte takes a binary header one byte further.
proof fn lemma_binary_escaped_byte(bin32: bool, d: Seq<u8>, v: u8, escape_control: bool)
    requires
        d.len() < (if bin32 {
            9nat
        } else {
            7nat
        }),
    ensures
        header_scan(HeaderScan::Binary(bin32, d, EscapeState::Plain), zdle_escape(v, escape_control))
            == binary_push(bin32, d, v),
{
    lemma_escape_reads_back(v, escape_control);
    let e = zdle_escape(v, escape_control);
    reveal_with_fuel(header_scan, 3);
    if e.len() == 2 {
        assert(e.drop_last() =~= seq![ZDLE]);
        assert(seq![ZDLE].drop_last() =~= Seq::<u8>::empty());
    } else {
        assert(e.drop_last() =~= Seq::<u8>::empty());
    }
}

/// Escaped bytes that do not complete a binary header are collected.
proof fn lemma_binary_escaped_bytes(bin32: bool, d: Seq<u8>, x: Seq<u8>, escape_control: bool)
    requires
        d.len() + x.len() < (if bin32 {
            9nat
        } else {
            7nat
        }),
    ensures
        header_scan(HeaderScan::Binary(bin32, d, EscapeState::Plain), zdle_escape_all(x, escape_control))
            == HeaderScan::Binary(bin32, d + x, EscapeState::Plain),
    decreases x.len(),
{
    if x.len() == 0 {
        assert(d + x =~= d);
    } else {
        let y = x.drop_last();
        lemma_binary_escaped_bytes(bin32, d, y, escape_control);
        lemma_header_scan_concat(
            HeaderScan::Binary(bin32, d, EscapeState::Plain),
            zdle_escape_all(y, escape_control),
            zdle_escape(x.last(), escape_control),
        );
        lemma_binary_escaped_byte(bin32, d + y, x.last(), escape_control);
        assert((d + y).push(x.last()) =~= d + x);
    }
}

proof fn lemma_zdle_escape_all_push(x: Seq<u8>, v: u8, escape_control: bool)
    ensures
        zdle_escape_all(x.push(v), escape_control) == zdle_escape_all(x, escape_control) + zdle_escape(v, escape_control),
{
    assert(x.push(v).drop_last() =~= x);
}

proof fn lemma_binary_lead_scan(bin32: bool)
    ensures
        header_scan(HeaderScan::Searching, seq![ZPAD, ZDLE, if bin32 {
            ZBIN32
        } else {
            ZBIN
        }]) == HeaderScan::Binary(bin32, Seq::empty(), EscapeState::Plain),
{
    let lead = seq![ZPAD, ZDLE, if bin32 {
        ZBIN32
    } else {
        ZBIN
    }];
    reveal_with_fuel(header_scan, 4);
    assert(lead.drop_last().drop_last().drop_last() =~= Seq::<u8>::empty());
    assert(lead.drop_last().drop_last() =~= seq![ZPAD]);
    assert(lead.drop_last() =~= seq![ZPAD, ZDLE]);
}

proof fn lemma_bin32_completes(t: ZFrameType, position: Seq<u8>)
    requires
        position.len() == 4,
    ensures
        ({
            let payload = header_payload(t, position);
            let c = payload + le32_bytes(spec_crc32_ieee(payload));
            binary_push(true, c.drop_last(), c.last()) == HeaderScan::Found(
                (t, position, ZHeaderEncoding::Bin32),
            )
        }),
{
    let payload = header_payload(t, position);
    let crc = spec_crc32_ieee(payload);
    let c = payload + le32_bytes(crc);
    assert(c.drop_last().push(c.last()) =~= c);
    lemma_le32_round_trip(crc);
    assert(c.subrange(0, 5) =~= payload);
    assert(c.subrange(5, 9) =~= le32_bytes(crc));
    assert(c.subrange(1, 5) =~= position);
    lemma_frame_code_round_trip(t);
}

/// A binary header with a CRC-32 trailer, as sent, is read back by the header
/// reader: the frame type and position it was built from.
pub proof fn lemma_bin32_header_read_back(t: ZFrameType, position: Seq<u8>, escape_control: bool)
    requires
        position.len() == 4,
    ensures
        header_scan(HeaderScan::Searching, spec_encode_bin32_header(t, position, escape_control))
            == HeaderScan::Found((t, position, ZHeaderEncoding::Bin32)),
{
    let payload = header_payload(t, position);
    let c = payload + le32_bytes(spec_crc32_ieee(payload));
    let lead = seq![ZPAD, ZDLE, ZBIN32];
    let start = HeaderScan::Binary(true, Seq::empty(), EscapeState::Plain);
    lemma_binary_lead_scan(true);
    let x = c.drop_last();
    lemma_binary_escaped_bytes(true, Seq::empty(), x, escape_control);
    assert(Seq::<u8>::empty() + x =~= x);
    lemma_binary_escaped_byte(true, x, c.last(), escape_control);
    assert(x.push(c.last()) =~= c);
    lemma_zdle_escape_all_push(x, c.last(), escape_control);
    lemma_header_scan_concat(start, zdle_escape_all(x, escape_control), zdle_escape(c.last(), escape_control));
    lemma_bin32_completes(t, position);
    lemma_header_scan_concat(HeaderScan::Searching, lead, zdle_escape_all(c, escape_control));
}


proof fn lemma_bin16_completes(t: ZFrameType, position: Seq<u8>)
    requires
        position.len() == 4,
        bin16_header_crc(header_payload(t, position)) == crc16_fold(0, header_payload(t, position)),
    ensures
        ({
            let payload = header_payload(t, position);
            let c = payload + be16_bytes(bin16_header_crc(payload));
            binary_push(false, c.drop_last(), c.last()) == HeaderScan::Found(
                (t, position, ZHeaderEncoding::Bin16),
            )
        }),
{
    let payload = header_payload(t, position);
    let r = crc16_fold(0, payload);
    let c = payload + be16_bytes(r);
    assert(c.drop_last().push(c.last()) =~= c);
    assert(c.drop_last() =~= payload.push(c[5]));
    assert(payload.push(c[5]).drop_last() =~= payload);
    assert(crc16_fold(0, payload.push(c[5])) == crc16_byte(r, c[5]));
    assert(crc16_fold(0, c) == crc16_byte(crc16_byte(r, c[5]), c[6]));
    lemma_crc16_residue(r);
    assert(c.subrange(1, 5) =~= position);
    lemma_frame_code_round_trip(t);
}

/// A binary header with a CRC-16 trailer, as sent, is read back by the header
/// reader when the trailer it carries (the CRC of the header bytes and two
/// zero bytes) equals the CRC of the header bytes alone, which the reader's
/// residue check requires.
pub proof fn lemma_bin16_header_read_back(t: ZFrameType, position: Seq<u8>, escape_control: bool)
    requires
        position.len() == 4,
        bin16_header_crc(header_payload(t, position)) == crc16_fold(0, header_payload(t, position)),
    ensures
        header_scan(HeaderScan::Searching, spec_encode_bin16_header(t, position, escape_control))
            == HeaderScan::Found((t, position, ZHeaderEncoding::Bin16)),
{
    let payload = header_payload(t, position);
    let c = payload + be16_bytes(bin16_header_crc(payload));
    let lead = seq![ZPAD, ZDLE, ZBIN];
    let start = HeaderScan::Binary(false, Seq::empty(), EscapeState::Plain);
    lemma_binary_lead_scan(false);
    let x = c.drop_last();
    lemma_binary_escaped_bytes(false, Seq::empty(), x, escape_control);
    assert(Seq::<u8>::empty() + x =~= x);
    lemma_binary_escaped_byte(false, x, c.last(), escape_control);
    assert(x.push(c.last()) =~= c);
    lemma_zdle_escape_all_push(x, c.last(), escape_control);
    lemma_header_scan_concat(start, zdle_escape_all(x, escape_control), zdle_escape(c.last(), escape_control));
    lemma_bin16_completes(t, position);
    lemma_header_scan_concat(HeaderScan::Searching, lead, zdle_escape_all(c, escape_control));
}

pub proof fn lemma_data_scan_concat(s: DataScan, a: Seq<u8>, b: Seq<u8>, crc32: bool, max: nat)
    ensures
        data_scan(s, a + b, crc32, max) == data_scan(data_scan(s, a, crc32, max), b, crc32, max),
    decreases b.len(),
{
    if b.len() == 0 {
        assert(a + b =~= a);
    } else {
        lemma_data_scan_concat(s, a, b.drop_last(), crc32, max);
        assert((a + b).drop_last() =~= a + b.drop_last());
    }
}

/// The number of CRC bytes that close a data subpacket.
pub open spec fn trailer_len(crc32: bool) -> nat {
    if crc32 {
        4
    } else {
        2
    }
}

/// One escaped payload byte is collected by the data reader.
proof fn lemma_data_payload_byte(p: Seq<u8>, v: u8, escape_control: bool, crc32: bool, max: nat)
    requires
        p.len() < max,
    ensures
        data_scan(DataScan::Payload(p, EscapeState::Plain), zdle_escape(v, escape_control), crc32, max)
            == DataScan::Payload(p.push(v), EscapeState::Plain),
{
    lemma_escape_reads_back(v, escape_control);
    let e = zdle_escape(v, escape_control);
    reveal_with_fuel(data_scan, 3);
    if e.len() == 2 {
        assert(e.drop_last() =~= seq![ZDLE]);
        assert(seq![ZDLE].drop_last() =~= Seq::<u8>::empty());
    } else {
        assert(e.drop_last() =~= Seq::<u8>::empty());
    }
}

/// Escaped payload bytes are collected by the data reader while they fit.
proof fn lemma_data_payload_bytes(p: Seq<u8>, x: Seq<u8>, escape_control: bool, crc32: bool, max: nat)
    requires
        p.len() + x.len() <= max,
    ensures
        data_scan(DataScan::Payload(p, EscapeState::Plain), zdle_escape_all(x, escape_control), crc32, max)
            == DataScan::Payload(p + x, EscapeState::Plain),
    decreases x.len(),
{
    let start = DataScan::Payload(p, EscapeState::Plain);
    if x.len() == 0 {
        assert(p + x =~= p);
    } else {
        let y = x.drop_last();
        lemma_data_payload_bytes(p, y, escape_control, crc32, max);
        lemma_data_scan_concat(
            start,
            zdle_escape_all(y, escape_control),
            zdle_escape(x.last(), escape_control),
            crc32,
            max,
        );
        lemma_data_payload_byte(p + y, x.last(), escape_control, crc32, max);
        assert((p + y).push(x.last()) =~= p + x);
    }
}

/// `ZDLE` and an end marker close the payload.
proof fn lemma_data_marker(p: Seq<u8>, end: ZDataEnd, crc32: bool, max: nat)
    ensures
        data_scan(DataScan::Payload(p, EscapeState::Plain), seq![ZDLE, spec_data_end_marker(end)], crc32, max)
            == DataScan::Trailer(p, end, Seq::empty(), EscapeState::Plain),
{
    reveal_with_fuel(data_scan, 3);
    let m = seq![ZDLE, spec_data_end_marker(end)];
    assert(m.drop_last() =~= seq![ZDLE]);
    assert(seq![ZDLE].drop_last() =~= Seq::<u8>::empty());
}

/// One escaped CRC byte is taken by the data reader.
proof fn lemma_data_trailer_byte(
    p: Seq<u8>,
    end: ZDataEnd,
    c: Seq<u8>,
    v: u8,
    escape_control: bool,
    crc32: bool,
    max: nat,
)
    ensures
        data_scan(DataScan::Trailer(p, end, c, EscapeState::Plain), zdle_escape(v, escape_control), crc32, max)
            == trailer_push(p, end, c, v, crc32),
{
    lemma_escape_reads_back(v, escape_control);
    let e = zdle_escape(v, escape_control);
    reveal_with_fuel(data_scan, 3);
    if e.len() == 2 {
        assert(e.drop_last() =~= seq![ZDLE]);
        assert(seq![ZDLE].drop_last() =~= Seq::<u8>::empty());
    } else {
        assert(e.drop_last() =~= Seq::<u8>::empty());
    }
}

/// Escaped CRC bytes that do not complete the trailer are collected.
proof fn lemma_data_trailer_bytes(
    p: Seq<u8>,
    end: ZDataEnd,
    c: Seq<u8>,
    x: Seq<u8>,
    escape_control: bool,
    crc32: bool,
    max: nat,
)
    requires
        c.len() + x.len() < trailer_len(crc32),
    ensures
        data_scan(DataScan::Trailer(p, end, c, EscapeState::Plain), zdle_escape_all(x, escape_control), crc32, max)
            == DataScan::Trailer(p, end, c + x, EscapeState::Plain),
    decreases x.len(),
{
    let start = DataScan::Trailer(p, end, c, EscapeState::Plain);
    if x.len() == 0 {
        assert(c + x =~= c);
    } else {
        let y = x.drop_last();
        lemma_data_trailer_bytes(p, end, c, y, escape_control, crc32, max);
        lemma_data_scan_concat(
            start,
            zdle_escape_all(y, escape_control),
            zdle_escape(x.last(), escape_control),
            crc32,
            max,
        );
        lemma_data_trailer_byte(p, end, c + y, x.last(), escape_control, crc32, max);
        assert((c + y).push(x.last()) =~= c + x);
    }
}

/// The escaped CRC bytes of a subpacket, in full, end the data reader's scan
/// in whatever the last one gives.
proof fn lemma_data_trailer_all(
    p: Seq<u8>,
    end: ZDataEnd,
    t: Seq<u8>,
    escape_control: bool,
    crc32: bool,
    max: nat,
)
    requires
        t.len() == trailer_len(crc32),
    ensures
        data_scan(DataScan::Trailer(p, end, Seq::empty(), EscapeState::Plain), zdle_escape_all(t, escape_control), crc32, max)
            == trailer_push(p, end, t.drop_last(), t.last(), crc32),
{
    let start = DataScan::Trailer(p, end, Seq::empty(), EscapeState::Plain);
    let x = t.drop_last();
    lemma_data_trailer_bytes(p, end, Seq::empty(), x, escape_control, crc32, max);
    assert(Seq::<u8>::empty() + x =~= x);
    lemma_zdle_escape_all_push(x, t.last(), escape_control);
    assert(x.push(t.last()) =~= t);
    lemma_data_scan_concat(start, zdle_escape_all(x, escape_control), zdle_escape(t.last(), escape_control), crc32, max);
    lemma_data_trailer_byte(p, end, x, t.last(), escape_control, crc32, max);
}

/// The CRC-32 trailer a sender computes is accepted.
proof fn lemma_data_crc32_accepted(p: Seq<u8>, end: ZDataEnd)
    ensures
        ({
            let t = le32_bytes(!crc32_fold(0xffff_ffffu32, p.push(spec_data_end_marker(end))));
            trailer_push(p, end, t.drop_last(), t.last(), true) == DataScan::Found(p, end)
        }),
{
    let v = !crc32_fold(0xffff_ffffu32, p.push(spec_data_end_marker(end)));
    let t = le32_bytes(v);
    assert(t.drop_last().push(t.last()) =~= t);
    lemma_le32_round_trip(v);
}

/// The CRC-16 trailer a sender computes is accepted: the register over the
/// covered bytes and the trailer is zero.
proof fn lemma_data_crc16_accepted(p: Seq<u8>, end: ZDataEnd)
    ensures
        ({
            let t = be16_bytes(crc16_fold(0, p.push(spec_data_end_marker(end))));
            trailer_push(p, end, t.drop_last(), t.last(), false) == DataScan::Found(p, end)
        }),
{
    let covered = p.push(spec_data_end_marker(end));
    let r = crc16_fold(0, covered);
    let t = be16_bytes(r);
    let all = covered + t;
    assert(t.drop_last().push(t.last()) =~= t);
    assert(all.drop_last() =~= covered.push(t[0]));
    assert(covered.push(t[0]).drop_last() =~= covered);
    assert(all.last() == t[1]);
    assert(crc16_fold(0, covered.push(t[0])) == crc16_byte(r, t[0]));
    assert(crc16_fold(0, all) == crc16_byte(crc16_byte(r, t[0]), t[1]));
    lemma_crc16_residue(r);
}

/// A data subpacket as a sender lays it out (escaped payload, `ZDLE`, end
/// marker, escaped trailer) is read back whole by the data reader.
pub proof fn lemma_data_scan_subpacket(
    p: Seq<u8>,
    end: ZDataEnd,
    t: Seq<u8>,
    escape_control: bool,
    crc32: bool,
    max: nat,
)
    requires
        p.len() <= max,
        t.len() == trailer_len(crc32),
        trailer_push(p, end, t.drop_last(), t.last(), crc32) == DataScan::Found(p, end),
    ensures
        data_scan(
            data_start(),
            zdle_escape_all(p, escape_control) + seq![ZDLE, spec_data_end_marker(end)]
                + zdle_escape_all(t, escape_control),
            crc32,
            max,
        ) == DataScan::Found(p, end),
{
    let a = zdle_escape_all(p, escape_control);
    let m = seq![ZDLE, spec_data_end_marker(end)];
    let b = zdle_escape_all(t, escape_control);
    lemma_data_payload_bytes(Seq::empty(), p, escape_control, crc32, max);
    assert(Seq::<u8>::empty() + p =~= p);
    lemma_data_marker(p, end, crc32, max);
    lemma_data_trailer_all(p, end, t, escape_control, crc32, max);
    lemma_data_scan_concat(data_start(), a, m, crc32, max);
    lemma_data_scan_concat(data_start(), a + m, b, crc32, max);
}

/// The trailer a sender computes closes the subpacket it was computed for.
pub proof fn lemma_data_trailer_accepted(p: Seq<u8>, end: ZDataEnd, crc32: bool)
    ensures
        ({
            let covered = p.push(spec_data_end_marker(end));
            let t = if crc32 {
                le32_bytes(!crc32_fold(0xffff_ffffu32, covered))
            } else {
                be16_bytes(crc16_fold(0, covered))
            };
            t.len() == trailer_len(crc32) && trailer_push(p, end, t.drop_last(), t.last(), crc32)
                == DataScan::Found(p, end)
        }),
{
    if crc32 {
        lemma_data_crc32_accepted(p, end);
    } else {
        lemma_data_crc16_accepted(p, end);
    }
}

} // verus!
