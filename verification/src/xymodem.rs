//! XMODEM/YMODEM block framing and the YMODEM block-zero file header.
use vstd::prelude::*;
use vstd::utf8::*;

use crate::bytes::{copy_range, find_first, is_first, lemma_find_first, push_all, push_repeated, repeat};
use crate::crc::{crc16_xmodem, spec_crc16_xmodem};
use crate::decimal::{decimal_digits, is_ascii_digit, lemma_decimal_digits_shape, lemma_parse_decimal_round_trip, parse_u64_decimal, spec_parse_u64, u64_decimal};
use crate::error::ModemError;
use crate::text::{spec_utf8_lossy, utf8_lossy};

verus! {

pub const SOH: u8 = 0x01;

pub const STX: u8 = 0x02;

pub const EOT: u8 = 0x04;

pub const ACK: u8 = 0x06;

pub const NAK: u8 = 0x15;

pub const CAN: u8 = 0x18;

pub const WANT_CRC: u8 = 0x43;

pub const CPMEOF: u8 = 0x1a;

/// The two payload sizes of an X/YMODEM block.
#[derive(Clone, Copy, Debug, PartialEq, Eq, Structural)]
pub enum XyBlockSize {
    Bytes128,
    Bytes1024,
}

pub open spec fn spec_block_len(size: XyBlockSize) -> nat {
    match size {
        XyBlockSize::Bytes128 => 128,
        XyBlockSize::Bytes1024 => 1024,
    }
}

pub open spec fn spec_block_marker(size: XyBlockSize) -> u8 {
    match size {
        XyBlockSize::Bytes128 => SOH,
        XyBlockSize::Bytes1024 => STX,
    }
}

pub open spec fn spec_block_size_from_marker(marker: u8) -> Option<XyBlockSize> {
    if marker == SOH {
        Some(XyBlockSize::Bytes128)
    } else if marker == STX {
        Some(XyBlockSize::Bytes1024)
    } else {
        None
    }
}

impl XyBlockSize {
    /// The payload length of a block of this size.
    pub fn len(self) -> (r: usize)
        ensures
            r == spec_block_len(self),
    {
        match self {
            XyBlockSize::Bytes128 => 128,
            XyBlockSize::Bytes1024 => 1024,
        }
    }

    /// The start-of-block byte announcing this size.
    pub fn marker(self) -> (r: u8)
        ensures
            r == spec_block_marker(self),
    {
        match self {
            XyBlockSize::Bytes128 => SOH,
            XyBlockSize::Bytes1024 => STX,
        }
    }

    /// The size a start-of-block byte announces, if any.
    pub fn from_marker(marker: u8) -> (r: Option<Self>)
        ensures
            r == spec_block_size_from_marker(marker),
    {
        if marker == SOH {
            Some(XyBlockSize::Bytes128)
        } else if marker == STX {
            Some(XyBlockSize::Bytes1024)
        } else {
            None
        }
    }
}

/// Marker and size are inverse to each other.
pub proof fn lemma_block_marker_round_trip(size: XyBlockSize)
    ensures
        spec_block_size_from_marker(spec_block_marker(size)) == Some(size),
{
}

/// An X/YMODEM data block.
#[derive(Clone, Debug, PartialEq, Eq)]
pub struct XyBlock {
    pub number: u8,
    pub size: XyBlockSize,
    pub payload: Vec<u8>,
}

/// The abstract content of a block: number, size and payload.
pub open spec fn block_view(b: XyBlock) -> (u8, XyBlockSize, Seq<u8>) {
    (b.number, b.size, b.payload@)
}

pub open spec fn block_result_view(r: Result<XyBlock, ModemError>) -> Result<
    (u8, XyBlockSize, Seq<u8>),
    ModemError,
> {
    match r {
        Ok(b) => Ok(block_view(b)),
        Err(e) => Err(e),
    }
}

/// The arithmetic checksum of a payload: the byte sum modulo 256.
pub open spec fn checksum8(s: Seq<u8>) -> u8
    decreases s.len(),
{
    if s.len() == 0 {
        0
    } else {
        ((checksum8(s.drop_last()) + s.last()) % 256) as u8
    }
}

/// Block number and its complement.
pub open spec fn block_prefix(size: XyBlockSize, number: u8) -> Seq<u8> {
    seq![spec_block_marker(size), number, (255 - number) as u8]
}

/// The big-endian bytes of a 16-bit value.
pub open spec fn be16(v: u16) -> Seq<u8> {
    seq![(v / 256) as u8, (v % 256) as u8]
}

/// A block as sent with a CRC-16 trailer.
pub open spec fn spec_encode_crc(number: u8, size: XyBlockSize, payload: Seq<u8>) -> Seq<u8> {
    block_prefix(size, number) + payload + be16(spec_crc16_xmodem(payload))
}

/// A block as sent with an arithmetic checksum trailer.
pub open spec fn spec_encode_checksum(number: u8, size: XyBlockSize, payload: Seq<u8>) -> Seq<
    u8,
> {
    block_prefix(size, number) + payload + seq![checksum8(payload)]
}

/// The padded payload of a new block.
pub open spec fn padded_payload(size: XyBlockSize, payload: Seq<u8>) -> Seq<u8> {
    payload + repeat(CPMEOF, (spec_block_len(size) - payload.len()) as nat)
}

/// How a received block with a CRC-16 trailer decodes.
pub open spec fn spec_parse_crc(bytes: Seq<u8>) -> Result<(u8, XyBlockSize, Seq<u8>), ModemError> {
    if bytes.len() < 3 {
        Err(ModemError::Incomplete)
    } else {
        match spec_block_size_from_marker(bytes[0]) {
            None => Err(ModemError::InvalidMarker),
            Some(size) => {
                let n = spec_block_len(size) as int;
                if bytes.len() < 3 + n + 2 {
                    Err(ModemError::Incomplete)
                } else if bytes.len() != 3 + n + 2 {
                    Err(ModemError::InvalidLength)
                } else if (bytes[1] + bytes[2]) % 256 != 255 {
                    Err(ModemError::InvalidBlockNumber)
                } else if spec_crc16_xmodem(bytes.subrange(3, 3 + n)) as int != bytes[3 + n]
                    * 256 + bytes[4 + n] {
                    Err(ModemError::InvalidCrc)
                } else {
                    Ok((bytes[1], size, bytes.subrange(3, 3 + n)))
                }
            },
        }
    }
}

/// How a received block with an arithmetic checksum decodes.
pub open spec fn spec_parse_checksum(bytes: Seq<u8>) -> Result<
    (u8, XyBlockSize, Seq<u8>),
    ModemError,
> {
    if bytes.len() < 3 {
        Err(ModemError::Incomplete)
    } else {
        match spec_block_size_from_marker(bytes[0]) {
            None => Err(ModemError::InvalidMarker),
            Some(size) => {
                let n = spec_block_len(size) as int;
                if bytes.len() < 3 + n + 1 {
                    Err(ModemError::Incomplete)
                } else if bytes.len() != 3 + n + 1 {
                    Err(ModemError::InvalidLength)
                } else if (bytes[1] + bytes[2]) % 256 != 255 {
                    Err(ModemError::InvalidBlockNumber)
                } else if checksum8(bytes.subrange(3, 3 + n)) != bytes[3 + n] {
                    Err(ModemError::InvalidChecksum)
                } else {
                    Ok((bytes[1], size, bytes.subrange(3, 3 + n)))
                }
            },
        }
    }
}

/// The arithmetic checksum of a payload.
pub fn checksum(payload: &[u8]) -> (r: u8)
    ensures
        r == checksum8(payload@),
{
    let mut sum: u8 = 0;
    let mut i: usize = 0;
    while i < payload.len()
        invariant
            i <= payload.len(),
            sum == checksum8(payload@.subrange(0, i as int)),
        decreases payload.len() - i,
    {
        assert(payload@.subrange(0, i + 1).drop_last() =~= payload@.subrange(0, i as int));
        sum = ((sum as u16 + payload[i] as u16) % 256) as u8;
        i = i + 1;
    }
    assert(payload@.subrange(0, payload.len() as int) =~= payload@);
    sum
}

fn push_block_prefix(out: &mut Vec<u8>, size: XyBlockSize, number: u8)
    ensures
        final(out)@ == old(out)@ + block_prefix(size, number),
{
    out.push(size.marker());
    out.push(number);
    out.push(255 - number);
    assert(final(out)@ =~= old(out)@ + block_prefix(size, number));
}

impl XyBlock {
    /// A block carrying `payload`, padded with CP/M end-of-file bytes.
    pub fn new(number: u8, size: XyBlockSize, payload: &[u8]) -> (r: Result<Self, ModemError>)
        ensures
            payload@.len() > spec_block_len(size) ==> r == Err::<Self, ModemError>(
                ModemError::InvalidLength,
            ),
            payload@.len() <= spec_block_len(size) ==> block_result_view(r) == Ok::<
                (u8, XyBlockSize, Seq<u8>),
                ModemError,
            >((number, size, padded_payload(size, payload@))),
    {
        let n = size.len();
        if payload.len() > n {
            return Err(ModemError::InvalidLength);
        }
        let mut padded: Vec<u8> = Vec::new();
        push_all(&mut padded, payload);
        push_repeated(&mut padded, CPMEOF, n - payload.len());
        Ok(XyBlock { number, size, payload: padded })
    }

    /// The block with a CRC-16 trailer.
    pub fn encode_crc(&self) -> (r: Vec<u8>)
        ensures
            r@ == spec_encode_crc(self.number, self.size, self.payload@),
    {
        let crc = crc16_xmodem(self.payload.as_slice());
        let mut bytes: Vec<u8> = Vec::new();
        push_block_prefix(&mut bytes, self.size, self.number);
        push_all(&mut bytes, self.payload.as_slice());
        bytes.push((crc / 256) as u8);
        bytes.push((crc % 256) as u8);
        assert(bytes@ =~= spec_encode_crc(self.number, self.size, self.payload@));
        bytes
    }

    /// The block with an arithmetic checksum trailer.
    pub fn encode_checksum(&self) -> (r: Vec<u8>)
        ensures
            r@ == spec_encode_checksum(self.number, self.size, self.payload@),
    {
        let sum = checksum(self.payload.as_slice());
        let mut bytes: Vec<u8> = Vec::new();
        push_block_prefix(&mut bytes, self.size, self.number);
        push_all(&mut bytes, self.payload.as_slice());
        bytes.push(sum);
        assert(bytes@ =~= spec_encode_checksum(self.number, self.size, self.payload@));
        bytes
    }

    /// Decodes a block with a CRC-16 trailer.
    pub fn parse_crc(bytes: &[u8]) -> (r: Result<Self, ModemError>)
        ensures
            block_result_view(r) == spec_parse_crc(bytes@),
    {
        if bytes.len() < 3 {
            return Err(ModemError::Incomplete);
        }
        let size = match XyBlockSize::from_marker(bytes[0]) {
            Some(size) => size,
            None => return Err(ModemError::InvalidMarker),
        };
        let n = size.len();
        let expected_len = 3 + n + 2;
        if bytes.len() < expected_len {
            return Err(ModemError::Incomplete);
        }
        if bytes.len() != expected_len {
            return Err(ModemError::InvalidLength);
        }
        let number = bytes[1];
        if (number as u16 + bytes[2] as u16) % 256 != 255 {
            return Err(ModemError::InvalidBlockNumber);
        }
        let payload = copy_range(bytes, 3, 3 + n);
        let received = bytes[3 + n] as u16 * 256 + bytes[4 + n] as u16;
        if crc16_xmodem(payload.as_slice()) != received {
            return Err(ModemError::InvalidCrc);
        }
        Ok(XyBlock { number, size, payload })
    }

    /// Decodes a block with an arithmetic checksum trailer.
    pub fn parse_checksum(bytes: &[u8]) -> (r: Result<Self, ModemError>)
        ensures
            block_result_view(r) == spec_parse_checksum(bytes@),
    {
        if bytes.len() < 3 {
            return Err(ModemError::Incomplete);
        }
        let size = match XyBlockSize::from_marker(bytes[0]) {
            Some(size) => size,
            None => return Err(ModemError::InvalidMarker),
        };
        let n = size.len();
        let expected_len = 3 + n + 1;
        if bytes.len() < expected_len {
            return Err(ModemError::Incomplete);
        }
        if bytes.len() != expected_len {
            return Err(ModemError::InvalidLength);
        }
        let number = bytes[1];
        if (number as u16 + bytes[2] as u16) % 256 != 255 {
            return Err(ModemError::InvalidBlockNumber);
        }
        let payload = copy_range(bytes, 3, 3 + n);
        if checksum(payload.as_slice()) != bytes[3 + n] {
            return Err(ModemError::InvalidChecksum);
        }
        Ok(XyBlock { number, size, payload })
    }
}

/// A full-size block encoded with a CRC trailer decodes to itself.
pub proof fn lemma_crc_block_round_trip(number: u8, size: XyBlockSize, payload: Seq<u8>)
    requires
        payload.len() == spec_block_len(size),
    ensures
        spec_parse_crc(spec_encode_crc(number, size, payload)) == Ok::<
            (u8, XyBlockSize, Seq<u8>),
            ModemError,
        >((number, size, payload)),
{
    let e = spec_encode_crc(number, size, payload);
    let n = spec_block_len(size) as int;
    assert(e.subrange(3, 3 + n) =~= payload);
    let crc = spec_crc16_xmodem(payload);
    assert(e[3 + n] == (crc / 256) as u8);
    assert(e[4 + n] == (crc % 256) as u8);
}

/// A full-size block encoded with a checksum trailer decodes to itself.
pub proof fn lemma_checksum_block_round_trip(number: u8, size: XyBlockSize, payload: Seq<u8>)
    requires
        payload.len() == spec_block_len(size),
    ensures
        spec_parse_checksum(spec_encode_checksum(number, size, payload)) == Ok::<
            (u8, XyBlockSize, Seq<u8>),
            ModemError,
        >((number, size, payload)),
{
    let e = spec_encode_checksum(number, size, payload);
    let n = spec_block_len(size) as int;
    assert(e.subrange(3, 3 + n) =~= payload);
}

/// The YMODEM block-zero file header.
#[derive(Clone, Debug, PartialEq, Eq)]
pub struct YmodemFileHeader {
    pub file_name: String,
    pub file_size: Option<u64>,
}

/// A file name a modem header may carry: a single plain path component.
pub open spec fn spec_valid_file_name(b: Seq<u8>) -> bool {
    &&& b.len() > 0
    &&& b != seq![0x2eu8]
    &&& b != seq![0x2eu8, 0x2eu8]
    &&& !b.contains(0x2fu8)
    &&& !b.contains(0x5cu8)
}

/// The UTF-8 bytes of a string.
pub open spec fn text_bytes(s: Seq<char>) -> Seq<u8> {
    encode_utf8(s)
}

/// How block zero announces a file.
pub open spec fn spec_block0(name: Seq<u8>, size: Option<u64>) -> Result<Seq<u8>, ModemError> {
    if name.len() == 0 || name.len() >= 128 {
        Err(ModemError::InvalidFileName)
    } else {
        match size {
            None => Ok(name + repeat(0, (128 - name.len()) as nat)),
            Some(n) => {
                let d = decimal_digits(n as nat);
                if name.len() + 1 + d.len() >= 128 {
                    Err(ModemError::InvalidLength)
                } else {
                    Ok(name + seq![0u8] + d + repeat(0, (128 - name.len() - 1 - d.len()) as nat))
                }
            },
        }
    }
}

pub open spec fn is_nul(b: u8) -> bool {
    b == 0
}

pub open spec fn ends_size_field(b: u8) -> bool {
    b == 0x20 || b == 0
}

/// How block zero decodes: `None` for the end-of-batch header, else the raw
/// name bytes and the announced size.
pub open spec fn spec_parse_block0(payload: Seq<u8>) -> Result<
    Option<(Seq<u8>, Option<u64>)>,
    ModemError,
> {
    let nul = find_first(payload, |b: u8| is_nul(b));
    if nul == payload.len() {
        Err(ModemError::InvalidLength)
    } else if nul == 0 {
        Ok(None)
    } else if !spec_valid_file_name(payload.subrange(0, nul)) {
        Err(ModemError::InvalidFileName)
    } else {
        let metadata = payload.subrange(nul + 1, payload.len() as int);
        let size_end = find_first(metadata, |b: u8| ends_size_field(b));
        if size_end == 0 {
            Ok(Some((payload.subrange(0, nul), None)))
        } else {
            match spec_parse_u64(metadata.subrange(0, size_end)) {
                None => Err(ModemError::InvalidLength),
                Some(v) => Ok(Some((payload.subrange(0, nul), Some(v)))),
            }
        }
    }
}

/// The size field of block zero ends at the first space as well as at a
/// NUL, so the further fields other senders put there (modification time,
/// mode, ...) do not spoil it: a valid name, NUL, the decimal size, a space
/// and anything after it decode to that name and size.
pub proof fn lemma_block0_size_ends_at_space(name: Seq<u8>, n: u64, rest: Seq<u8>)
    requires
        spec_valid_file_name(name),
        !name.contains(0u8),
    ensures
        spec_parse_block0(name + seq![0u8] + decimal_digits(n as nat) + seq![0x20u8] + rest) == Ok::<
            Option<(Seq<u8>, Option<u64>)>,
            ModemError,
        >(Some((name, Some(n)))),
{
    let d = decimal_digits(n as nat);
    let p = name + seq![0u8] + d + seq![0x20u8] + rest;
    lemma_parse_decimal_round_trip(n);
    lemma_decimal_digits_shape(n as nat);
    assert forall|k: int| 0 <= k < name.len() implies !is_nul(#[trigger] p[k]) by {
        assert(p[k] == name[k]);
        if name[k] == 0u8 {
            assert(name.contains(0u8));
        }
    }
    assert(p[name.len() as int] == 0u8);
    assert(is_first(p, |x: u8| is_nul(x), name.len() as int));
    lemma_find_first(p, |x: u8| is_nul(x), name.len() as int);
    assert(p.subrange(0, name.len() as int) =~= name);
    let metadata = p.subrange(name.len() as int + 1, p.len() as int);
    assert(metadata =~= d + seq![0x20u8] + rest);
    assert forall|k: int| 0 <= k < d.len() implies !ends_size_field(#[trigger] metadata[k]) by {
        assert(metadata[k] == d[k]);
        assert(is_ascii_digit(d[k]));
    }
    assert(metadata[d.len() as int] == 0x20u8);
    assert(is_first(metadata, |x: u8| ends_size_field(x), d.len() as int));
    lemma_find_first(metadata, |x: u8| ends_size_field(x), d.len() as int);
    assert(metadata.subrange(0, d.len() as int) =~= d);
}

/// A block-zero header announcing a valid name (without NUL bytes) decodes
/// to the same name bytes and size, and those bytes decode to the same text.
pub proof fn lemma_block0_round_trip(name: Seq<char>, size: Option<u64>)
    requires
        spec_valid_file_name(text_bytes(name)),
        !text_bytes(name).contains(0u8),
        spec_block0(text_bytes(name), size) is Ok,
    ensures
        spec_parse_block0(spec_block0(text_bytes(name), size)->Ok_0) == Ok::<
            Option<(Seq<u8>, Option<u64>)>,
            ModemError,
        >(Some((text_bytes(name), size))),
        decode_utf8(text_bytes(name)) == name,
{
    let b = text_bytes(name);
    let p = spec_block0(b, size)->Ok_0;
    assert forall|k: int| 0 <= k < b.len() implies !is_nul(#[trigger] p[k]) by {
        assert(p[k] == b[k]);
        if b[k] == 0u8 {
            assert(b.contains(0u8));
        }
    }
    assert(p[b.len() as int] == 0u8);
    assert(is_first(p, |x: u8| is_nul(x), b.len() as int));
    lemma_find_first(p, |x: u8| is_nul(x), b.len() as int);
    assert(p.subrange(0, b.len() as int) =~= b);
    let metadata = p.subrange(b.len() as int + 1, p.len() as int);
    match size {
        None => {
            if metadata.len() > 0 {
                assert(metadata[0] == 0u8);
            }
            assert(is_first(metadata, |x: u8| ends_size_field(x), 0));
            lemma_find_first(metadata, |x: u8| ends_size_field(x), 0);
        },
        Some(n) => {
            let d = decimal_digits(n as nat);
            lemma_parse_decimal_round_trip(n);
            lemma_decimal_digits_shape(n as nat);
            assert(metadata =~= d + repeat(0, (128 - b.len() - 1 - d.len()) as nat));
            assert forall|k: int| 0 <= k < d.len() implies !ends_size_field(
                #[trigger] metadata[k],
            ) by {
                assert(metadata[k] == d[k]);
                assert(is_ascii_digit(d[k]));
            }
            if d.len() < metadata.len() {
                assert(metadata[d.len() as int] == 0u8);
            }
            assert(is_first(metadata, |x: u8| ends_size_field(x), d.len() as int));
            lemma_find_first(metadata, |x: u8| ends_size_field(x), d.len() as int);
            assert(metadata.subrange(0, d.len() as int) =~= d);
        },
    }
    encode_utf8_decode_utf8(name);
}

/// Checks that `name` is a single plain path component.
pub fn validate_file_name_bytes(name: &[u8]) -> (r: Result<(), ModemError>)
    ensures
        r is Ok <==> spec_valid_file_name(name@),
        r is Err ==> r == Err::<(), ModemError>(ModemError::InvalidFileName),
{
    if name.len() == 0 {
        return Err(ModemError::InvalidFileName);
    }
    if name.len() == 1 && name[0] == 0x2e {
        assert(name@ =~= seq![0x2eu8]);
        return Err(ModemError::InvalidFileName);
    }
    if name.len() == 2 && name[0] == 0x2e && name[1] == 0x2e {
        assert(name@ =~= seq![0x2eu8, 0x2eu8]);
        return Err(ModemError::InvalidFileName);
    }
    let mut i: usize = 0;
    while i < name.len()
        invariant
            i <= name@.len(),
            forall|k: int| 0 <= k < i ==> name@[k] != 0x2fu8 && name@[k] != 0x5cu8,
        decreases name.len() - i,
    {
        if name[i] == 0x2f || name[i] == 0x5c {
            assert(name@.contains(name@[i as int]));
            return Err(ModemError::InvalidFileName);
        }
        i = i + 1;
    }
    assert(!name@.contains(0x2fu8));
    assert(!name@.contains(0x5cu8));
    Ok(())
}

/// Checks that a YMODEM file name is a single plain path component.
pub fn validate_ymodem_file_name(file_name: &str) -> (r: Result<(), ModemError>)
    ensures
        r is Ok <==> spec_valid_file_name(text_bytes(file_name@)),
        r is Err ==> r == Err::<(), ModemError>(ModemError::InvalidFileName),
{
    validate_file_name_bytes(file_name.as_bytes())
}

/// Index of the first byte of `bytes` that is NUL (`stop_at_space`: or a space).
fn position_of_terminator(bytes: &[u8], stop_at_space: bool) -> (r: usize)
    ensures
        !stop_at_space ==> is_first(bytes@, |b: u8| is_nul(b), r as int),
        stop_at_space ==> is_first(bytes@, |b: u8| ends_size_field(b), r as int),
{
    let mut i: usize = 0;
    while i < bytes.len()
        invariant
            i <= bytes@.len(),
            forall|k: int| 0 <= k < i ==> bytes@[k] != 0u8 && (stop_at_space ==> bytes@[k]
                != 0x20u8),
        decreases bytes.len() - i,
    {
        if bytes[i] == 0 || (stop_at_space && bytes[i] == 0x20) {
            return i;
        }
        i = i + 1;
    }
    i
}

impl YmodemFileHeader {
    /// A header for `file_name`, which must be a single plain path component.
    pub fn new(file_name: &str, file_size: Option<u64>) -> (r: Result<Self, ModemError>)
        ensures
            spec_valid_file_name(text_bytes(file_name@)) ==> (r matches Ok(h) && h.file_name@
                == file_name@ && h.file_size == file_size),
            !spec_valid_file_name(text_bytes(file_name@)) ==> (r matches Err(
                ModemError::InvalidFileName,
            )),
    {
        match validate_ymodem_file_name(file_name) {
            Ok(()) => Ok(YmodemFileHeader { file_name: String::from_str(file_name), file_size }),
            Err(e) => Err(e),
        }
    }

    /// The 128-byte block-zero payload announcing this file.
    pub fn encode_block0_payload(&self) -> (r: Result<Vec<u8>, ModemError>)
        ensures
            match (r, spec_block0(text_bytes(self.file_name@), self.file_size)) {
                (Ok(v), Ok(s)) => v@ == s,
                (Err(e), Err(f)) => e == f,
                _ => false,
            },
    {
        let name_bytes = self.file_name.as_str().as_bytes();
        if name_bytes.len() == 0 || name_bytes.len() >= 128 {
            return Err(ModemError::InvalidFileName);
        }
        let mut payload: Vec<u8> = Vec::new();
        push_all(&mut payload, name_bytes);
        match self.file_size {
            None => {
                push_repeated(&mut payload, 0, 128 - name_bytes.len());
            },
            Some(file_size) => {
                let size_text = u64_decimal(file_size);
                if size_text.len() >= 127 - name_bytes.len() {
                    return Err(ModemError::InvalidLength);
                }
                payload.push(0);
                push_all(&mut payload, size_text.as_slice());
                push_repeated(&mut payload, 0, 128 - name_bytes.len() - 1 - size_text.len());
            },
        }
        Ok(payload)
    }

    /// Decodes a block-zero payload; `None` marks the end of the batch.
    pub fn parse_block0_payload(payload: &[u8]) -> (r: Result<Option<Self>, ModemError>)
        ensures
            match (r, spec_parse_block0(payload@)) {
                (Ok(None), Ok(None)) => true,
                (Ok(Some(h)), Ok(Some((name, size)))) => h.file_name@ == spec_utf8_lossy(name)
                    && (valid_utf8(name) ==> h.file_name@ == decode_utf8(name)) && h.file_size
                    == size,
                (Err(e), Err(f)) => e == f,
                _ => false,
            },
    {
        let nul = position_of_terminator(payload, false);
        proof {
            lemma_find_first(payload@, |b: u8| is_nul(b), nul as int);
        }
        if nul == payload.len() {
            return Err(ModemError::InvalidLength);
        }
        if nul == 0 {
            return Ok(None);
        }
        let name = copy_range(payload, 0, nul);
        match validate_file_name_bytes(name.as_slice()) {
            Ok(()) => {},
            Err(e) => return Err(e),
        }
        let metadata = copy_range(payload, nul + 1, payload.len());
        let size_end = position_of_terminator(metadata.as_slice(), true);
        proof {
            lemma_find_first(metadata@, |b: u8| ends_size_field(b), size_end as int);
        }
        let file_name = utf8_lossy(name.as_slice());
        if size_end == 0 {
            return Ok(Some(YmodemFileHeader { file_name, file_size: None }));
        }
        let size_text = copy_range(metadata.as_slice(), 0, size_end);
        match parse_u64_decimal(size_text.as_slice()) {
            None => Err(ModemError::InvalidLength),
            Some(v) => Ok(Some(YmodemFileHeader { file_name, file_size: Some(v) })),
        }
    }
}

} // verus!
