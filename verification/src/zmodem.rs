//! ZMODEM header framing: hex and binary headers, ZDLE escaping.
use vstd::prelude::*;

use crate::crc::{crc16_fold, crc16_xmodem, crc32_ieee, spec_crc16_xmodem, spec_crc32_ieee};
use crate::error::ModemError;

verus! {

pub const ZPAD: u8 = 0x2a;

pub const ZDLE: u8 = 0x18;

pub const ZBIN: u8 = 0x41;

pub const ZHEX: u8 = 0x42;

pub const ZBIN32: u8 = 0x43;

pub const XON: u8 = 0x11;

pub const ZCRCE: u8 = 0x68;

pub const ZCRCG: u8 = 0x69;

pub const ZCRCQ: u8 = 0x6a;

pub const ZCRCW: u8 = 0x6b;

pub const ZRUB0: u8 = 0x6c;

pub const ZRUB1: u8 = 0x6d;

/// The ZMODEM frame types, in the order of their wire codes 0 to 19.
#[derive(Clone, Copy, Debug, PartialEq, Eq, Structural)]
pub enum ZFrameType {
    ZrqInit,
    ZrInit,
    ZsInit,
    ZAck,
    ZFile,
    ZSkip,
    ZNak,
    ZAbort,
    ZFin,
    ZRpos,
    ZData,
    ZEof,
    ZFerr,
    ZCrc,
    ZChallenge,
    ZCompl,
    ZCan,
    ZFreeCnt,
    ZCommand,
    ZStderr,
}

/// The wire code of a frame type.
pub open spec fn frame_code(t: ZFrameType) -> u8 {
    match t {
        ZFrameType::ZrqInit => 0,
        ZFrameType::ZrInit => 1,
        ZFrameType::ZsInit => 2,
        ZFrameType::ZAck => 3,
        ZFrameType::ZFile => 4,
        ZFrameType::ZSkip => 5,
        ZFrameType::ZNak => 6,
        ZFrameType::ZAbort => 7,
        ZFrameType::ZFin => 8,
        ZFrameType::ZRpos => 9,
        ZFrameType::ZData => 10,
        ZFrameType::ZEof => 11,
        ZFrameType::ZFerr => 12,
        ZFrameType::ZCrc => 13,
        ZFrameType::ZChallenge => 14,
        ZFrameType::ZCompl => 15,
        ZFrameType::ZCan => 16,
        ZFrameType::ZFreeCnt => 17,
        ZFrameType::ZCommand => 18,
        ZFrameType::ZStderr => 19,
    }
}

/// The frame type a wire code names, if any.
pub open spec fn spec_frame_from_byte(b: u8) -> Option<ZFrameType> {
    if b == 0 {
        Some(ZFrameType::ZrqInit)
    } else if b == 1 {
        Some(ZFrameType::ZrInit)
    } else if b == 2 {
        Some(ZFrameType::ZsInit)
    } else if b == 3 {
        Some(ZFrameType::ZAck)
    } else if b == 4 {
        Some(ZFrameType::ZFile)
    } else if b == 5 {
        Some(ZFrameType::ZSkip)
    } else if b == 6 {
        Some(ZFrameType::ZNak)
    } else if b == 7 {
        Some(ZFrameType::ZAbort)
    } else if b == 8 {
        Some(ZFrameType::ZFin)
    } else if b == 9 {
        Some(ZFrameType::ZRpos)
    } else if b == 10 {
        Some(ZFrameType::ZData)
    } else if b == 11 {
        Some(ZFrameType::ZEof)
    } else if b == 12 {
        Some(ZFrameType::ZFerr)
    } else if b == 13 {
        Some(ZFrameType::ZCrc)
    } else if b == 14 {
        Some(ZFrameType::ZChallenge)
    } else if b == 15 {
        Some(ZFrameType::ZCompl)
    } else if b == 16 {
        Some(ZFrameType::ZCan)
    } else if b == 17 {
        Some(ZFrameType::ZFreeCnt)
    } else if b == 18 {
        Some(ZFrameType::ZCommand)
    } else if b == 19 {
        Some(ZFrameType::ZStderr)
    } else {
        None
    }
}

/// The ZMODEM wire codes: ZRQINIT 0, ZRINIT 1, ZSINIT 2, ZACK 3, ZFILE 4,
/// ZSKIP 5, ZNAK 6, ZABORT 7, ZFIN 8, ZRPOS 9, ZDATA 10, ZEOF 11, ZFERR 12,
/// ZCRC 13, ZCHALLENGE 14, ZCOMPL 15, ZCAN 16, ZFREECNT 17, ZCOMMAND 18,
/// ZSTDERR 19; each code names its frame type, and no code from 20 on names
/// one.
pub proof fn lemma_zmodem_wire_codes(b: u8)
    ensures
        frame_code(ZFrameType::ZrqInit) == 0 && frame_code(ZFrameType::ZrInit) == 1
            && frame_code(ZFrameType::ZsInit) == 2 && frame_code(ZFrameType::ZAck) == 3
            && frame_code(ZFrameType::ZFile) == 4 && frame_code(ZFrameType::ZSkip) == 5
            && frame_code(ZFrameType::ZNak) == 6 && frame_code(ZFrameType::ZAbort) == 7
            && frame_code(ZFrameType::ZFin) == 8 && frame_code(ZFrameType::ZRpos) == 9
            && frame_code(ZFrameType::ZData) == 10 && frame_code(ZFrameType::ZEof) == 11
            && frame_code(ZFrameType::ZFerr) == 12 && frame_code(ZFrameType::ZCrc) == 13
            && frame_code(ZFrameType::ZChallenge) == 14 && frame_code(ZFrameType::ZCompl) == 15
            && frame_code(ZFrameType::ZCan) == 16 && frame_code(ZFrameType::ZFreeCnt) == 17
            && frame_code(ZFrameType::ZCommand) == 18 && frame_code(ZFrameType::ZStderr) == 19,
        spec_frame_from_byte(0) == Some(ZFrameType::ZrqInit) && spec_frame_from_byte(1) == Some(
            ZFrameType::ZrInit,
        ) && spec_frame_from_byte(2) == Some(ZFrameType::ZsInit) && spec_frame_from_byte(3)
            == Some(ZFrameType::ZAck) && spec_frame_from_byte(4) == Some(ZFrameType::ZFile)
            && spec_frame_from_byte(5) == Some(ZFrameType::ZSkip) && spec_frame_from_byte(6)
            == Some(ZFrameType::ZNak) && spec_frame_from_byte(7) == Some(ZFrameType::ZAbort)
            && spec_frame_from_byte(8) == Some(ZFrameType::ZFin) && spec_frame_from_byte(9)
            == Some(ZFrameType::ZRpos) && spec_frame_from_byte(10) == Some(ZFrameType::ZData)
            && spec_frame_from_byte(11) == Some(ZFrameType::ZEof) && spec_frame_from_byte(12)
            == Some(ZFrameType::ZFerr) && spec_frame_from_byte(13) == Some(ZFrameType::ZCrc)
            && spec_frame_from_byte(14) == Some(ZFrameType::ZChallenge) && spec_frame_from_byte(15)
            == Some(ZFrameType::ZCompl) && spec_frame_from_byte(16) == Some(ZFrameType::ZCan)
            && spec_frame_from_byte(17) == Some(ZFrameType::ZFreeCnt) && spec_frame_from_byte(18)
            == Some(ZFrameType::ZCommand) && spec_frame_from_byte(19) == Some(ZFrameType::ZStderr),
        b >= 20 ==> spec_frame_from_byte(b) is None,
{
}

/// Every frame type is named by its own code.
pub proof fn lemma_frame_code_round_trip(t: ZFrameType)
    ensures
        spec_frame_from_byte(frame_code(t)) == Some(t),
{
}

impl ZFrameType {
    /// The frame type a wire code names, if any.
    pub fn from_byte(byte: u8) -> (r: Option<Self>)
        ensures
            r == spec_frame_from_byte(byte),
    {
        match byte {
            0 => Some(ZFrameType::ZrqInit),
            1 => Some(ZFrameType::ZrInit),
            2 => Some(ZFrameType::ZsInit),
            3 => Some(ZFrameType::ZAck),
            4 => Some(ZFrameType::ZFile),
            5 => Some(ZFrameType::ZSkip),
            6 => Some(ZFrameType::ZNak),
            7 => Some(ZFrameType::ZAbort),
            8 => Some(ZFrameType::ZFin),
            9 => Some(ZFrameType::ZRpos),
            10 => Some(ZFrameType::ZData),
            11 => Some(ZFrameType::ZEof),
            12 => Some(ZFrameType::ZFerr),
            13 => Some(ZFrameType::ZCrc),
            14 => Some(ZFrameType::ZChallenge),
            15 => Some(ZFrameType::ZCompl),
            16 => Some(ZFrameType::ZCan),
            17 => Some(ZFrameType::ZFreeCnt),
            18 => Some(ZFrameType::ZCommand),
            19 => Some(ZFrameType::ZStderr),
            _ => None,
        }
    }

    /// The wire code of this frame type.
    pub fn code(self) -> (r: u8)
        ensures
            r == frame_code(self),
    {
        match self {
            ZFrameType::ZrqInit => 0,
            ZFrameType::ZrInit => 1,
            ZFrameType::ZsInit => 2,
            ZFrameType::ZAck => 3,
            ZFrameType::ZFile => 4,
            ZFrameType::ZSkip => 5,
            ZFrameType::ZNak => 6,
            ZFrameType::ZAbort => 7,
            ZFrameType::ZFin => 8,
            ZFrameType::ZRpos => 9,
            ZFrameType::ZData => 10,
            ZFrameType::ZEof => 11,
            ZFrameType::ZFerr => 12,
            ZFrameType::ZCrc => 13,
            ZFrameType::ZChallenge => 14,
            ZFrameType::ZCompl => 15,
            ZFrameType::ZCan => 16,
            ZFrameType::ZFreeCnt => 17,
            ZFrameType::ZCommand => 18,
            ZFrameType::ZStderr => 19,
        }
    }
}

/// How a header is encoded on the wire.
#[derive(Clone, Copy, Debug, PartialEq, Eq, Structural)]
pub enum ZHeaderEncoding {
    Bin16,
    Bin32,
    Hex,
}

/// A ZMODEM header: frame type and four position/flag bytes.
#[derive(Clone, Copy, Debug, PartialEq, Eq)]
pub struct ZHeader {
    pub frame_type: ZFrameType,
    pub position: [u8; 4],
    pub encoding: ZHeaderEncoding,
}

/// The little-endian value of four bytes.
pub open spec fn le32_value(p: Seq<u8>) -> nat {
    p[0] as nat + p[1] as nat * 256 + p[2] as nat * 65536 + p[3] as nat * 16777216
}

/// The little-endian bytes of a 32-bit value.
pub open spec fn le32_bytes(v: u32) -> Seq<u8> {
    seq![
        (v % 256) as u8,
        ((v / 256) % 256) as u8,
        ((v / 65536) % 256) as u8,
        (v / 16777216) as u8,
    ]
}

impl ZHeader {
    pub fn new(frame_type: ZFrameType, position: [u8; 4], encoding: ZHeaderEncoding) -> (r: Self)
        ensures
            r.frame_type == frame_type,
            r.position@ == position@,
            r.encoding == encoding,
    {
        ZHeader { frame_type, position, encoding }
    }

    /// The position bytes read as a little-endian number.
    pub fn position_u32(self) -> (r: u32)
        ensures
            r as nat == le32_value(self.position@),
    {
        self.position[0] as u32 + self.position[1] as u32 * 256 + self.position[2] as u32 * 65536
            + self.position[3] as u32 * 16777216
    }
}

/// The position bytes of a header announcing `position`.
pub fn position_header(position: u32) -> (r: [u8; 4])
    ensures
        r@ == le32_bytes(position),
        le32_value(r@) == position as nat,
{
    let r = [
        (position % 256) as u8,
        ((position / 256) % 256) as u8,
        ((position / 65536) % 256) as u8,
        (position / 16777216) as u8,
    ];
    assert(r@ =~= le32_bytes(position));
    proof {
        lemma_le32_round_trip(position);
    }
    r
}

pub proof fn lemma_le32_round_trip(v: u32)
    ensures
        le32_value(le32_bytes(v)) == v as nat,
{
    let b = le32_bytes(v);
    assert(v == (v % 256) + ((v / 256) % 256) * 256 + ((v / 65536) % 256) * 65536 + (v
        / 16777216) * 16777216) by (nonlinear_arith);
}

/// How a data subpacket ends.
#[derive(Clone, Copy, Debug, PartialEq, Eq, Structural)]
pub enum ZDataEnd {
    End,
    Continue,
    ContinueWithAck,
    EndWithAck,
}

pub open spec fn spec_data_end_marker(e: ZDataEnd) -> u8 {
    match e {
        ZDataEnd::End => ZCRCE,
        ZDataEnd::Continue => ZCRCG,
        ZDataEnd::ContinueWithAck => ZCRCQ,
        ZDataEnd::EndWithAck => ZCRCW,
    }
}

pub open spec fn spec_data_end_from_marker(m: u8) -> Option<ZDataEnd> {
    if m == ZCRCE {
        Some(ZDataEnd::End)
    } else if m == ZCRCG {
        Some(ZDataEnd::Continue)
    } else if m == ZCRCQ {
        Some(ZDataEnd::ContinueWithAck)
    } else if m == ZCRCW {
        Some(ZDataEnd::EndWithAck)
    } else {
        None
    }
}

impl ZDataEnd {
    pub fn marker(self) -> (r: u8)
        ensures
            r == spec_data_end_marker(self),
    {
        match self {
            ZDataEnd::End => ZCRCE,
            ZDataEnd::Continue => ZCRCG,
            ZDataEnd::ContinueWithAck => ZCRCQ,
            ZDataEnd::EndWithAck => ZCRCW,
        }
    }

    pub fn from_marker(marker: u8) -> (r: Option<Self>)
        ensures
            r == spec_data_end_from_marker(marker),
    {
        if marker == ZCRCE {
            Some(ZDataEnd::End)
        } else if marker == ZCRCG {
            Some(ZDataEnd::Continue)
        } else if marker == ZCRCQ {
            Some(ZDataEnd::ContinueWithAck)
        } else if marker == ZCRCW {
            Some(ZDataEnd::EndWithAck)
        } else {
            None
        }
    }
}

/// The five header bytes covered by the CRC.
pub open spec fn header_payload(t: ZFrameType, position: Seq<u8>) -> Seq<u8> {
    seq![frame_code(t)] + position
}

/// The lowercase hex digit of a nibble.
pub open spec fn hex_digit(n: u8) -> u8 {
    if n < 10 {
        (0x30 + n) as u8
    } else {
        (0x61 + n - 10) as u8
    }
}

/// The two hex digits of a byte.
pub open spec fn hex_pair(b: u8) -> Seq<u8> {
    seq![hex_digit(b / 16), hex_digit(b % 16)]
}

pub open spec fn hex_all(s: Seq<u8>) -> Seq<u8>
    decreases s.len(),
{
    if s.len() == 0 {
        Seq::empty()
    } else {
        hex_all(s.drop_last()) + hex_pair(s.last())
    }
}

/// The big-endian bytes of a 16-bit value.
pub open spec fn be16_bytes(v: u16) -> Seq<u8> {
    seq![(v / 256) as u8, (v % 256) as u8]
}

/// A hex header as sent.
pub open spec fn spec_encode_hex_header(t: ZFrameType, position: Seq<u8>, include_xon: bool) -> Seq<
    u8,
> {
    let payload = header_payload(t, position);
    seq![ZPAD, ZPAD, ZDLE, ZHEX] + hex_all(payload + be16_bytes(spec_crc16_xmodem(payload)))
        + seq![0x0du8, 0x8au8] + if include_xon {
        seq![XON]
    } else {
        Seq::empty()
    }
}

/// The value of a hex digit (either case).
pub open spec fn spec_hex_value(b: u8) -> Option<u8> {
    if 0x30 <= b <= 0x39 {
        Some((b - 0x30) as u8)
    } else if 0x61 <= b <= 0x66 {
        Some((b - 0x61 + 10) as u8)
    } else if 0x41 <= b <= 0x46 {
        Some((b - 0x41 + 10) as u8)
    } else {
        None
    }
}

/// The byte at hex pair `i` of a hex header, if both digits are valid.
pub open spec fn hex_header_byte(bytes: Seq<u8>, i: int) -> Option<u8> {
    match (spec_hex_value(bytes[4 + 2 * i]), spec_hex_value(bytes[5 + 2 * i])) {
        (Some(h), Some(l)) => Some((h * 16 + l) as u8),
        _ => None,
    }
}

pub open spec fn hex_header_decodable(bytes: Seq<u8>) -> bool {
    forall|i: int| 0 <= i < 7 ==> #[trigger] hex_header_byte(bytes, i) is Some
}

pub open spec fn hex_header_decoded(bytes: Seq<u8>) -> Seq<u8> {
    Seq::new(7, |i: int| hex_header_byte(bytes, i)->Some_0)
}

/// A decoded header: frame type, position bytes and encoding.
pub open spec fn header_view(h: ZHeader) -> (ZFrameType, Seq<u8>, ZHeaderEncoding) {
    (h.frame_type, h.position@, h.encoding)
}

pub open spec fn header_result_view(r: Result<ZHeader, ModemError>) -> Result<
    (ZFrameType, Seq<u8>, ZHeaderEncoding),
    ModemError,
> {
    match r {
        Ok(h) => Ok(header_view(h)),
        Err(e) => Err(e),
    }
}

/// How a hex header decodes.
pub open spec fn spec_parse_hex_header(bytes: Seq<u8>) -> Result<
    (ZFrameType, Seq<u8>, ZHeaderEncoding),
    ModemError,
> {
    if bytes.len() < 18 {
        Err(ModemError::Incomplete)
    } else if bytes.subrange(0, 4) != seq![ZPAD, ZPAD, ZDLE, ZHEX] {
        Err(ModemError::InvalidMarker)
    } else if !hex_header_decodable(bytes) {
        Err(ModemError::InvalidFrameEncoding)
    } else {
        let d = hex_header_decoded(bytes);
        if spec_crc16_xmodem(d.subrange(0, 5)) as int != d[5] * 256 + d[6] {
            Err(ModemError::InvalidCrc)
        } else {
            match spec_frame_from_byte(d[0]) {
                None => Err(ModemError::InvalidFrameType),
                Some(t) => Ok((t, d.subrange(1, 5), ZHeaderEncoding::Hex)),
            }
        }
    }
}

/// Appends the two lowercase hex digits of `byte`.
pub fn push_hex_byte(out: &mut Vec<u8>, byte: u8)
    ensures
        final(out)@ == old(out)@ + hex_pair(byte),
{
    let high = byte / 16;
    let low = byte % 16;
    out.push(if high < 10 {
        0x30 + high
    } else {
        0x61 + high - 10
    });
    out.push(if low < 10 {
        0x30 + low
    } else {
        0x61 + low - 10
    });
    assert(final(out)@ =~= old(out)@ + hex_pair(byte));
}

/// The value of a hex digit.
pub fn hex_value(byte: u8) -> (r: Result<u8, ModemError>)
    ensures
        match spec_hex_value(byte) {
            Some(v) => r == Ok::<u8, ModemError>(v),
            None => r == Err::<u8, ModemError>(ModemError::InvalidFrameEncoding),
        },
{
    if 0x30 <= byte && byte <= 0x39 {
        Ok(byte - 0x30)
    } else if 0x61 <= byte && byte <= 0x66 {
        Ok(byte - 0x61 + 10)
    } else if 0x41 <= byte && byte <= 0x46 {
        Ok(byte - 0x41 + 10)
    } else {
        Err(ModemError::InvalidFrameEncoding)
    }
}

/// The byte two hex digits spell.
pub fn read_hex_byte(bytes: &[u8]) -> (r: Result<u8, ModemError>)
    ensures
        bytes@.len() != 2 ==> r == Err::<u8, ModemError>(ModemError::Incomplete),
        bytes@.len() == 2 ==> match (spec_hex_value(bytes@[0]), spec_hex_value(bytes@[1])) {
            (Some(h), Some(l)) => r == Ok::<u8, ModemError>((h * 16 + l) as u8),
            _ => r == Err::<u8, ModemError>(ModemError::InvalidFrameEncoding),
        },
{
    if bytes.len() != 2 {
        return Err(ModemError::Incomplete);
    }
    let high = match hex_value(bytes[0]) {
        Ok(v) => v,
        Err(e) => return Err(e),
    };
    let low = match hex_value(bytes[1]) {
        Ok(v) => v,
        Err(e) => return Err(e),
    };
    Ok(high * 16 + low)
}

fn header_payload_bytes(frame_type: ZFrameType, position: &[u8; 4]) -> (r: Vec<u8>)
    ensures
        r@ == header_payload(frame_type, position@),
{
    let mut payload: Vec<u8> = Vec::new();
    payload.push(frame_type.code());
    payload.push(position[0]);
    payload.push(position[1]);
    payload.push(position[2]);
    payload.push(position[3]);
    assert(payload@ =~= header_payload(frame_type, position@));
    payload
}

/// A hex header; ZMODEM sends these before binary mode is established.
pub fn encode_hex_header(frame_type: ZFrameType, position: [u8; 4], include_xon: bool) -> (r: Vec<
    u8,
>)
    ensures
        r@ == spec_encode_hex_header(frame_type, position@, include_xon),
{
    let payload = header_payload_bytes(frame_type, &position);
    let crc = crc16_xmodem(payload.as_slice());
    let mut covered = payload.clone();
    covered.push((crc / 256) as u8);
    covered.push((crc % 256) as u8);
    let ghost c = covered@;
    assert(c =~= payload@ + be16_bytes(crc));
    let mut out: Vec<u8> = Vec::new();
    out.push(ZPAD);
    out.push(ZPAD);
    out.push(ZDLE);
    out.push(ZHEX);
    let ghost prefix = out@;
    let mut i: usize = 0;
    while i < covered.len()
        invariant
            i <= covered@.len(),
            covered@ == c,
            out@ == prefix + hex_all(c.subrange(0, i as int)),
        decreases covered.len() - i,
    {
        assert(c.subrange(0, i + 1).drop_last() =~= c.subrange(0, i as int));
        push_hex_byte(&mut out, covered[i]);
        i = i + 1;
        assert(out@ =~= prefix + hex_all(c.subrange(0, i as int)));
    }
    assert(c.subrange(0, c.len() as int) =~= c);
    out.push(0x0d);
    out.push(0x8a);
    if include_xon {
        out.push(XON);
    }
    assert(out@ =~= spec_encode_hex_header(frame_type, position@, include_xon));
    out
}

/// Decodes a hex header.
pub fn parse_hex_header(bytes: &[u8]) -> (r: Result<ZHeader, ModemError>)
    ensures
        header_result_view(r) == spec_parse_hex_header(bytes@),
{
    if bytes.len() < 18 {
        return Err(ModemError::Incomplete);
    }
    if !(bytes[0] == ZPAD && bytes[1] == ZPAD && bytes[2] == ZDLE && bytes[3] == ZHEX) {
        proof {
            if bytes@.subrange(0, 4) == seq![ZPAD, ZPAD, ZDLE, ZHEX] {
                assert(bytes@.subrange(0, 4)[0] == bytes@[0]);
                assert(bytes@.subrange(0, 4)[1] == bytes@[1]);
                assert(bytes@.subrange(0, 4)[2] == bytes@[2]);
                assert(bytes@.subrange(0, 4)[3] == bytes@[3]);
            }
        }
        return Err(ModemError::InvalidMarker);
    }
    assert(bytes@.subrange(0, 4) =~= seq![ZPAD, ZPAD, ZDLE, ZHEX]);
    let mut decoded: Vec<u8> = Vec::new();
    let mut i: usize = 0;
    while i < 7
        invariant
            i <= 7,
            bytes@.len() >= 18,
            bytes@.subrange(0, 4) == seq![ZPAD, ZPAD, ZDLE, ZHEX],
            decoded@.len() == i,
            forall|k: int| 0 <= k < i ==> #[trigger] hex_header_byte(bytes@, k) is Some
                && decoded@[k] == hex_header_byte(bytes@, k)->Some_0,
        decreases 7 - i,
    {
        let offset = 4 + i * 2;
        let high = hex_value(bytes[offset]);
        let low = hex_value(bytes[offset + 1]);
        match (high, low) {
            (Ok(h), Ok(l)) => {
                decoded.push(h * 16 + l);
            },
            _ => {
                assert(hex_header_byte(bytes@, i as int) is None);
                return Err(ModemError::InvalidFrameEncoding);
            },
        }
        i = i + 1;
    }
    assert(hex_header_decodable(bytes@));
    assert(decoded@ =~= hex_header_decoded(bytes@));
    let crc_input = crate::bytes::copy_range(decoded.as_slice(), 0, 5);
    let expected = crc16_xmodem(crc_input.as_slice());
    let received = decoded[5] as u16 * 256 + decoded[6] as u16;
    if expected != received {
        return Err(ModemError::InvalidCrc);
    }
    let frame_type = match ZFrameType::from_byte(decoded[0]) {
        Some(t) => t,
        None => return Err(ModemError::InvalidFrameType),
    };
    let position = [decoded[1], decoded[2], decoded[3], decoded[4]];
    assert(position@ =~= decoded@.subrange(1, 5));
    Ok(ZHeader { frame_type, position, encoding: ZHeaderEncoding::Hex })
}

pub open spec fn spec_should_escape(b: u8) -> bool {
    b == ZDLE || b == 0x10 || b == 0x11 || b == 0x13 || b == 0x90 || b == 0x91 || b == 0x93
}

/// How one byte is escaped on the wire.
pub open spec fn zdle_escape(b: u8, escape_control: bool) -> Seq<u8> {
    if spec_should_escape(b) || (escape_control && b & 0x60u8 == 0u8) {
        seq![ZDLE, b ^ 0x40u8]
    } else {
        seq![b]
    }
}

pub open spec fn zdle_escape_all(s: Seq<u8>, escape_control: bool) -> Seq<u8>
    decreases s.len(),
{
    if s.len() == 0 {
        Seq::empty()
    } else {
        zdle_escape_all(s.drop_last(), escape_control) + zdle_escape(s.last(), escape_control)
    }
}

/// The byte an escape sequence `ZDLE e` stands for, if it is a valid escape.
pub open spec fn spec_escaped_value(e: u8) -> Option<u8> {
    if e == ZRUB0 {
        Some(0x7fu8)
    } else if e == ZRUB1 {
        Some(0xffu8)
    } else if e & 0x60u8 == 0x40u8 {
        Some(e ^ 0x40u8)
    } else {
        None
    }
}

pub open spec fn result_prepend(prefix: Seq<u8>, r: Result<Seq<u8>, ModemError>) -> Result<
    Seq<u8>,
    ModemError,
> {
    match r {
        Ok(s) => Ok(prefix + s),
        Err(e) => Err(e),
    }
}

/// How the first `n` bytes of a ZDLE-escaped stream decode.
pub open spec fn spec_zdle_decode(bytes: Seq<u8>, n: nat) -> Result<Seq<u8>, ModemError>
    decreases n,
{
    if n == 0 {
        Ok(Seq::empty())
    } else if bytes.len() == 0 {
        Err(ModemError::Incomplete)
    } else if bytes[0] == ZDLE {
        if bytes.len() < 2 {
            Err(ModemError::Incomplete)
        } else {
            match spec_escaped_value(bytes[1]) {
                None => Err(ModemError::InvalidEscape),
                Some(d) => result_prepend(seq![d], spec_zdle_decode(bytes.skip(2), (n - 1) as nat)),
            }
        }
    } else {
        result_prepend(seq![bytes[0]], spec_zdle_decode(bytes.skip(1), (n - 1) as nat))
    }
}

proof fn lemma_prepend_empty(r: Result<Seq<u8>, ModemError>)
    ensures
        result_prepend(Seq::empty(), r) == r,
{
    if let Ok(s) = r {
        assert(Seq::<u8>::empty() + s =~= s);
    }
}

proof fn lemma_prepend_assoc(a: Seq<u8>, b: Seq<u8>, r: Result<Seq<u8>, ModemError>)
    ensures
        result_prepend(a, result_prepend(b, r)) == result_prepend(a + b, r),
{
    if let Ok(s) = r {
        assert(a + (b + s) =~= (a + b) + s);
    }
}

/// Decodes `decoded_len` bytes of a ZDLE-escaped stream.
pub fn decode_zdle_payload(bytes: &[u8], decoded_len: usize) -> (r: Result<Vec<u8>, ModemError>)
    ensures
        match (r, spec_zdle_decode(bytes@, decoded_len as nat)) {
            (Ok(v), Ok(s)) => v@ == s,
            (Err(e), Err(f)) => e == f,
            _ => false,
        },
        r matches Ok(v) ==> v@.len() == decoded_len,
{
    let mut out: Vec<u8> = Vec::new();
    let mut index: usize = 0;
    assert(bytes@.skip(0) =~= bytes@);
    proof {
        lemma_prepend_empty(spec_zdle_decode(bytes@, decoded_len as nat));
    }
    while out.len() < decoded_len
        invariant
            index <= bytes@.len(),
            out@.len() <= decoded_len,
            spec_zdle_decode(bytes@, decoded_len as nat) == result_prepend(
                out@,
                spec_zdle_decode(bytes@.skip(index as int), (decoded_len - out@.len()) as nat),
            ),
        decreases decoded_len - out@.len(),
    {
        let ghost rest = bytes@.skip(index as int);
        let ghost m = (decoded_len - out@.len()) as nat;
        if index >= bytes.len() {
            return Err(ModemError::Incomplete);
        }
        let byte = bytes[index];
        index = index + 1;
        if byte == ZDLE {
            if index >= bytes.len() {
                return Err(ModemError::Incomplete);
            }
            let escaped = bytes[index];
            index = index + 1;
            let decoded = if escaped == ZRUB0 {
                0x7f
            } else if escaped == ZRUB1 {
                0xff
            } else if escaped & 0x60 == 0x40 {
                escaped ^ 0x40
            } else {
                return Err(ModemError::InvalidEscape);
            };
            proof {
                assert(rest.skip(2) =~= bytes@.skip(index as int));
                assert(out@.push(decoded) =~= out@ + seq![decoded]);
                lemma_prepend_assoc(out@, seq![decoded], spec_zdle_decode(rest.skip(2), (m - 1) as nat));
            }
            out.push(decoded);
        } else {
            proof {
                assert(rest.skip(1) =~= bytes@.skip(index as int));
                assert(out@.push(byte) =~= out@ + seq![byte]);
                lemma_prepend_assoc(out@, seq![byte], spec_zdle_decode(rest.skip(1), (m - 1) as nat));
            }
            out.push(byte);
        }
    }
    Ok(out)
}

/// Appends `byte`, escaped when it is ZDLE or a flow-control byte.
pub fn push_zdle_escaped(out: &mut Vec<u8>, byte: u8)
    ensures
        final(out)@ == old(out)@ + zdle_escape(byte, false),
{
    push_zdle_escaped_with_control(out, byte, false);
}

/// Appends `byte`, escaped when it is ZDLE, a flow-control byte, or (when
/// `escape_control`) any control byte.
pub fn push_zdle_escaped_with_control(out: &mut Vec<u8>, byte: u8, escape_control: bool)
    ensures
        final(out)@ == old(out)@ + zdle_escape(byte, escape_control),
{
    if should_escape_zdle(byte) || (escape_control && byte & 0x60 == 0) {
        out.push(ZDLE);
        out.push(byte ^ 0x40);
    } else {
        out.push(byte);
    }
    assert(final(out)@ =~= old(out)@ + zdle_escape(byte, escape_control));
}

/// Whether `byte` must always be escaped.
pub fn should_escape_zdle(byte: u8) -> (r: bool)
    ensures
        r == spec_should_escape(byte),
{
    byte == ZDLE || byte == 0x10 || byte == 0x11 || byte == 0x13 || byte == 0x90 || byte == 0x91
        || byte == 0x93
}

/// The CRC-16 trailer of a binary header: the CRC of the five header bytes
/// followed by two zero bytes.
pub open spec fn bin16_header_crc(payload: Seq<u8>) -> u16 {
    crc16_fold(0, payload + seq![0u8, 0u8])
}

pub open spec fn spec_encode_bin16_header(
    t: ZFrameType,
    position: Seq<u8>,
    escape_control: bool,
) -> Seq<u8> {
    let payload = header_payload(t, position);
    seq![ZPAD, ZDLE, ZBIN] + zdle_escape_all(
        payload + be16_bytes(bin16_header_crc(payload)),
        escape_control,
    )
}

pub open spec fn spec_encode_bin32_header(
    t: ZFrameType,
    position: Seq<u8>,
    escape_control: bool,
) -> Seq<u8> {
    let payload = header_payload(t, position);
    seq![ZPAD, ZDLE, ZBIN32] + zdle_escape_all(
        payload + le32_bytes(spec_crc32_ieee(payload)),
        escape_control,
    )
}

fn push_escaped_all(out: &mut Vec<u8>, bytes: &[u8], escape_control: bool)
    ensures
        final(out)@ == old(out)@ + zdle_escape_all(bytes@, escape_control),
{
    let mut i: usize = 0;
    while i < bytes.len()
        invariant
            i <= bytes@.len(),
            out@ == old(out)@ + zdle_escape_all(bytes@.subrange(0, i as int), escape_control),
        decreases bytes.len() - i,
    {
        assert(bytes@.subrange(0, i + 1).drop_last() =~= bytes@.subrange(0, i as int));
        push_zdle_escaped_with_control(out, bytes[i], escape_control);
        i = i + 1;
        assert(out@ =~= old(out)@ + zdle_escape_all(bytes@.subrange(0, i as int), escape_control));
    }
    assert(bytes@.subrange(0, bytes@.len() as int) =~= bytes@);
}

/// A binary header with a CRC-16 trailer.
pub fn encode_bin16_header(frame_type: ZFrameType, position: [u8; 4]) -> (r: Vec<u8>)
    ensures
        r@ == spec_encode_bin16_header(frame_type, position@, false),
{
    encode_bin16_header_with_escape(frame_type, position, false)
}

/// A binary header with a CRC-16 trailer, optionally escaping all control bytes.
pub fn encode_bin16_header_with_escape(
    frame_type: ZFrameType,
    position: [u8; 4],
    escape_control: bool,
) -> (r: Vec<u8>)
    ensures
        r@ == spec_encode_bin16_header(frame_type, position@, escape_control),
{
    let payload = header_payload_bytes(frame_type, &position);
    let mut with_zeros = payload.clone();
    with_zeros.push(0);
    with_zeros.push(0);
    assert(with_zeros@ =~= payload@ + seq![0u8, 0u8]);
    let crc = crc16_xmodem(with_zeros.as_slice());
    let mut covered = payload.clone();
    covered.push((crc / 256) as u8);
    covered.push((crc % 256) as u8);
    assert(covered@ =~= payload@ + be16_bytes(crc));
    let mut out: Vec<u8> = Vec::new();
    out.push(ZPAD);
    out.push(ZDLE);
    out.push(ZBIN);
    push_escaped_all(&mut out, covered.as_slice(), escape_control);
    assert(out@ =~= spec_encode_bin16_header(frame_type, position@, escape_control));
    out
}

/// A binary header with a CRC-32 trailer.
pub fn encode_bin32_header(frame_type: ZFrameType, position: [u8; 4]) -> (r: Vec<u8>)
    ensures
        r@ == spec_encode_bin32_header(frame_type, position@, false),
{
    encode_bin32_header_with_escape(frame_type, position, false)
}

/// The little-endian bytes of a 32-bit value.
pub fn u32_le_bytes(v: u32) -> (r: Vec<u8>)
    ensures
        r@ == le32_bytes(v),
{
    let mut out: Vec<u8> = Vec::new();
    out.push((v % 256) as u8);
    out.push(((v / 256) % 256) as u8);
    out.push(((v / 65536) % 256) as u8);
    out.push((v / 16777216) as u8);
    assert(out@ =~= le32_bytes(v));
    out
}

/// A binary header with a CRC-32 trailer, optionally escaping all control bytes.
pub fn encode_bin32_header_with_escape(
    frame_type: ZFrameType,
    position: [u8; 4],
    escape_control: bool,
) -> (r: Vec<u8>)
    ensures
        r@ == spec_encode_bin32_header(frame_type, position@, escape_control),
{
    let payload = header_payload_bytes(frame_type, &position);
    let crc = crc32_ieee(payload.as_slice());
    let mut covered = payload.clone();
    let trailer = u32_le_bytes(crc);
    crate::bytes::push_all(&mut covered, trailer.as_slice());
    let mut out: Vec<u8> = Vec::new();
    out.push(ZPAD);
    out.push(ZDLE);
    out.push(ZBIN32);
    push_escaped_all(&mut out, covered.as_slice(), escape_control);
    assert(out@ =~= spec_encode_bin32_header(frame_type, position@, escape_control));
    out
}

/// How a binary header decodes.
pub open spec fn spec_parse_binary_header(bytes: Seq<u8>) -> Result<
    (ZFrameType, Seq<u8>, ZHeaderEncoding),
    ModemError,
> {
    if bytes.len() < 3 {
        Err(ModemError::Incomplete)
    } else if bytes[0] != ZPAD || bytes[1] != ZDLE {
        Err(ModemError::InvalidMarker)
    } else if bytes[2] != ZBIN && bytes[2] != ZBIN32 {
        Err(ModemError::InvalidFrameEncoding)
    } else {
        let bin32 = bytes[2] == ZBIN32;
        let crc_len: nat = if bin32 {
            4
        } else {
            2
        };
        match spec_zdle_decode(bytes.skip(3), 5 + crc_len) {
            Err(e) => Err(e),
            Ok(d) => match spec_frame_from_byte(d[0]) {
                None => Err(ModemError::InvalidFrameType),
                Some(t) => {
                    let crc_ok = if bin32 {
                        spec_crc32_ieee(d.subrange(0, 5)) as nat == le32_value(d.subrange(5, 9))
                    } else {
                        bin16_header_crc(d.subrange(0, 5)) as int == d[5] * 256 + d[6]
                    };
                    if !crc_ok {
                        Err(ModemError::InvalidCrc)
                    } else {
                        Ok(
                            (
                                t,
                                d.subrange(1, 5),
                                if bin32 {
                                    ZHeaderEncoding::Bin32
                                } else {
                                    ZHeaderEncoding::Bin16
                                },
                            ),
                        )
                    }
                },
            },
        }
    }
}

/// Decodes a binary header.
pub fn parse_binary_header(bytes: &[u8]) -> (r: Result<ZHeader, ModemError>)
    ensures
        header_result_view(r) == spec_parse_binary_header(bytes@),
{
    if bytes.len() < 3 {
        return Err(ModemError::Incomplete);
    }
    if bytes[0] != ZPAD || bytes[1] != ZDLE {
        return Err(ModemError::InvalidMarker);
    }
    let (encoding, crc_len) = if bytes[2] == ZBIN {
        (ZHeaderEncoding::Bin16, 2usize)
    } else if bytes[2] == ZBIN32 {
        (ZHeaderEncoding::Bin32, 4usize)
    } else {
        return Err(ModemError::InvalidFrameEncoding);
    };
    let rest = crate::bytes::copy_range(bytes, 3, bytes.len());
    assert(rest@ =~= bytes@.skip(3));
    let decoded = match decode_zdle_payload(rest.as_slice(), 5 + crc_len) {
        Ok(d) => d,
        Err(e) => return Err(e),
    };
    let frame_type = match ZFrameType::from_byte(decoded[0]) {
        Some(t) => t,
        None => return Err(ModemError::InvalidFrameType),
    };
    let position = [decoded[1], decoded[2], decoded[3], decoded[4]];
    assert(position@ =~= decoded@.subrange(1, 5));
    let head = crate::bytes::copy_range(decoded.as_slice(), 0, 5);
    if crc_len == 2 {
        let mut with_zeros = head.clone();
        with_zeros.push(0);
        with_zeros.push(0);
        assert(with_zeros@ =~= head@ + seq![0u8, 0u8]);
        let expected = crc16_xmodem(with_zeros.as_slice());
        let received = decoded[5] as u16 * 256 + decoded[6] as u16;
        if expected != received {
            return Err(ModemError::InvalidCrc);
        }
    } else {
        let expected = crc32_ieee(head.as_slice());
        let received = decoded[5] as u32 + decoded[6] as u32 * 256 + decoded[7] as u32 * 65536
            + decoded[8] as u32 * 16777216;
        assert(received as nat == le32_value(decoded@.subrange(5, 9)));
        if expected != received {
            return Err(ModemError::InvalidCrc);
        }
    }
    Ok(ZHeader { frame_type, position, encoding })
}

pub proof fn lemma_hex_all_shape(c: Seq<u8>)
    ensures
        hex_all(c).len() == 2 * c.len(),
        forall|i: int|
            0 <= i < c.len() ==> #[trigger] hex_all(c)[2 * i] == hex_digit(c[i] / 16) && hex_all(
                c,
            )[2 * i + 1] == hex_digit(c[i] % 16),
    decreases c.len(),
{
    if c.len() > 0 {
        lemma_hex_all_shape(c.drop_last());
        assert forall|i: int| 0 <= i < c.len() implies #[trigger] hex_all(c)[2 * i] == hex_digit(
            c[i] / 16,
        ) && hex_all(c)[2 * i + 1] == hex_digit(c[i] % 16) by {
            if i < c.len() - 1 {
                assert(c.drop_last()[i] == c[i]);
            }
        }
    }
}

pub proof fn lemma_hex_digit_value(n: u8)
    requires
        n < 16,
    ensures
        spec_hex_value(hex_digit(n)) == Some(n),
{
}

/// A hex header decodes to the frame type and position it was built from.
pub proof fn lemma_hex_header_round_trip(t: ZFrameType, position: Seq<u8>, include_xon: bool)
    requires
        position.len() == 4,
    ensures
        spec_parse_hex_header(spec_encode_hex_header(t, position, include_xon)) == Ok::<
            (ZFrameType, Seq<u8>, ZHeaderEncoding),
            ModemError,
        >((t, position, ZHeaderEncoding::Hex)),
{
    let payload = header_payload(t, position);
    let crc = spec_crc16_xmodem(payload);
    let c = payload + be16_bytes(crc);
    let e = spec_encode_hex_header(t, position, include_xon);
    lemma_hex_all_shape(c);
    assert(e.subrange(0, 4) =~= seq![ZPAD, ZPAD, ZDLE, ZHEX]);
    assert forall|i: int| 0 <= i < 7 implies #[trigger] hex_header_byte(e, i) == Some(c[i]) by {
        assert(e[4 + 2 * i] == hex_all(c)[2 * i]);
        assert(e[5 + 2 * i] == hex_all(c)[2 * i + 1]);
        lemma_hex_digit_value(c[i] / 16);
        lemma_hex_digit_value(c[i] % 16);
        assert(c[i] == (c[i] / 16) * 16 + c[i] % 16);
    }
    let d = hex_header_decoded(e);
    assert(d =~= c);
    assert(d.subrange(0, 5) =~= payload);
    assert(d.subrange(1, 5) =~= position);
    assert(crc == (crc / 256) * 256 + crc % 256);
    lemma_frame_code_round_trip(t);
}

proof fn lemma_escape_one(b: u8, escape_control: bool, rest: Seq<u8>, n: nat)
    ensures
        spec_zdle_decode(zdle_escape(b, escape_control) + rest, n + 1) == result_prepend(
            seq![b],
            spec_zdle_decode(rest, n),
        ),
{
    let e = zdle_escape(b, escape_control);
    if spec_should_escape(b) || (escape_control && b & 0x60u8 == 0u8) {
        let x = b ^ 0x40u8;
        assert(spec_should_escape(b) || (escape_control && b & 0x60u8 == 0u8) ==> (x & 0x60u8
            == 0x40u8 && x ^ 0x40u8 == b && x != ZRUB0 && x != ZRUB1)) by (bit_vector)
            requires
                x == b ^ 0x40u8,
                spec_should_escape(b) ==> (b == 0x18u8 || b == 0x10u8 || b == 0x11u8 || b
                    == 0x13u8 || b == 0x90u8 || b == 0x91u8 || b == 0x93u8),
        ;
        assert((e + rest).skip(2) =~= rest);
    } else {
        assert((e + rest).skip(1) =~= rest);
    }
}

proof fn lemma_escape_all_front(s: Seq<u8>, escape_control: bool)
    requires
        s.len() > 0,
    ensures
        zdle_escape_all(s, escape_control) == zdle_escape(s[0], escape_control) + zdle_escape_all(
            s.drop_first(),
            escape_control,
        ),
    decreases s.len(),
{
    if s.len() == 1 {
        assert(s.drop_last() =~= Seq::<u8>::empty());
        assert(s.drop_first() =~= Seq::<u8>::empty());
        assert(zdle_escape_all(s.drop_first(), escape_control) =~= Seq::<u8>::empty());
        assert(zdle_escape_all(Seq::<u8>::empty(), escape_control) =~= Seq::<u8>::empty());
        assert(zdle_escape_all(s, escape_control) =~= zdle_escape(s[0], escape_control));
    } else {
        lemma_escape_all_front(s.drop_last(), escape_control);
        assert(s.drop_last().drop_first() =~= s.drop_first().drop_last());
        assert(s.drop_first().last() == s.last());
        assert(zdle_escape_all(s, escape_control) =~= zdle_escape(s[0], escape_control)
            + zdle_escape_all(s.drop_first(), escape_control));
    }
}

/// Escaping and then decoding gives back every byte, whatever follows.
pub proof fn lemma_zdle_round_trip(s: Seq<u8>, escape_control: bool, rest: Seq<u8>)
    ensures
        spec_zdle_decode(zdle_escape_all(s, escape_control) + rest, s.len()) == Ok::<
            Seq<u8>,
            ModemError,
        >(s),
    decreases s.len(),
{
    if s.len() == 0 {
        assert(s =~= Seq::<u8>::empty());
    } else {
        lemma_escape_all_front(s, escape_control);
        lemma_zdle_round_trip(s.drop_first(), escape_control, rest);
        let tail = zdle_escape_all(s.drop_first(), escape_control) + rest;
        assert(zdle_escape_all(s, escape_control) + rest =~= zdle_escape(s[0], escape_control)
            + tail);
        lemma_escape_one(s[0], escape_control, tail, s.drop_first().len());
        assert(seq![s[0]] + s.drop_first() =~= s);
    }
}

/// A binary header with a CRC-16 trailer decodes to what it was built from.
pub proof fn lemma_bin16_header_round_trip(t: ZFrameType, position: Seq<u8>, escape_control: bool)
    requires
        position.len() == 4,
    ensures
        spec_parse_binary_header(spec_encode_bin16_header(t, position, escape_control)) == Ok::<
            (ZFrameType, Seq<u8>, ZHeaderEncoding),
            ModemError,
        >((t, position, ZHeaderEncoding::Bin16)),
{
    let payload = header_payload(t, position);
    let crc = bin16_header_crc(payload);
    let c = payload + be16_bytes(crc);
    let e = spec_encode_bin16_header(t, position, escape_control);
    assert(e.skip(3) =~= zdle_escape_all(c, escape_control) + Seq::<u8>::empty());
    lemma_zdle_round_trip(c, escape_control, Seq::<u8>::empty());
    assert(c.subrange(0, 5) =~= payload);
    assert(c.subrange(1, 5) =~= position);
    assert(crc == (crc / 256) * 256 + crc % 256);
    lemma_frame_code_round_trip(t);
}

/// A binary header with a CRC-32 trailer decodes to what it was built from.
pub proof fn lemma_bin32_header_round_trip(t: ZFrameType, position: Seq<u8>, escape_control: bool)
    requires
        position.len() == 4,
    ensures
        spec_parse_binary_header(spec_encode_bin32_header(t, position, escape_control)) == Ok::<
            (ZFrameType, Seq<u8>, ZHeaderEncoding),
            ModemError,
        >((t, position, ZHeaderEncoding::Bin32)),
{
    let payload = header_payload(t, position);
    let crc = spec_crc32_ieee(payload);
    let c = payload + le32_bytes(crc);
    let e = spec_encode_bin32_header(t, position, escape_control);
    assert(e.skip(3) =~= zdle_escape_all(c, escape_control) + Seq::<u8>::empty());
    lemma_zdle_round_trip(c, escape_control, Seq::<u8>::empty());
    assert(c.subrange(0, 5) =~= payload);
    assert(c.subrange(1, 5) =~= position);
    assert(c.subrange(5, 9) =~= le32_bytes(crc));
    lemma_le32_round_trip(crc);
    lemma_frame_code_round_trip(t);
}

} // verus!
