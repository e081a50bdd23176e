//! CRC-16/XMODEM and CRC-32/IEEE checksums used by the modem protocols.
use vstd::prelude::*;

verus! {

/// One bit step of the CRC-16/XMODEM register (polynomial 0x1021, MSB first).
pub open spec fn crc16_bit(crc: u16) -> u16 {
    if crc & 0x8000u16 != 0u16 {
        (crc << 1u16) ^ 0x1021u16
    } else {
        crc << 1u16
    }
}

/// `n` bit steps of the CRC-16 register.
pub open spec fn crc16_bits(crc: u16, n: nat) -> u16
    decreases n,
{
    if n == 0 {
        crc
    } else {
        crc16_bit(crc16_bits(crc, (n - 1) as nat))
    }
}

/// The CRC-16/XMODEM register after feeding one byte.
pub open spec fn crc16_byte(crc: u16, byte: u8) -> u16 {
    crc16_bits(crc ^ ((byte as u16) << 8u16), 8)
}

/// The CRC-16/XMODEM register after feeding `data`, starting from `init`.
pub open spec fn crc16_fold(init: u16, data: Seq<u8>) -> u16
    decreases data.len(),
{
    if data.len() == 0 {
        init
    } else {
        crc16_byte(crc16_fold(init, data.drop_last()), data.last())
    }
}

/// CRC-16/XMODEM of `data` (initial register 0, no final xor).
pub open spec fn spec_crc16_xmodem(data: Seq<u8>) -> u16 {
    crc16_fold(0, data)
}

/// One bit step of the reflected CRC-32/IEEE register (polynomial 0xEDB88320).
pub open spec fn crc32_bit(crc: u32) -> u32 {
    if crc & 1u32 != 0u32 {
        (crc >> 1u32) ^ 0xEDB8_8320u32
    } else {
        crc >> 1u32
    }
}

pub open spec fn crc32_bits(crc: u32, n: nat) -> u32
    decreases n,
{
    if n == 0 {
        crc
    } else {
        crc32_bit(crc32_bits(crc, (n - 1) as nat))
    }
}

/// The CRC-32 register after feeding one byte.
pub open spec fn crc32_byte(crc: u32, byte: u8) -> u32 {
    crc32_bits(crc ^ (byte as u32), 8)
}

pub open spec fn crc32_fold(init: u32, data: Seq<u8>) -> u32
    decreases data.len(),
{
    if data.len() == 0 {
        init
    } else {
        crc32_byte(crc32_fold(init, data.drop_last()), data.last())
    }
}

/// CRC-32/IEEE of `data` (initial register all ones, final complement).
pub open spec fn spec_crc32_ieee(data: Seq<u8>) -> u32 {
    !crc32_fold(0xffff_ffffu32, data)
}

/// Feeds one byte into a CRC-16/XMODEM register.
pub fn crc16_xmodem_update(crc: u16, byte: u8) -> (r: u16)
    ensures
        r == crc16_byte(crc, byte),
{
    let mut value: u16 = crc ^ ((byte as u16) << 8u16);
    let ghost start = value;
    let mut i: usize = 0;
    while i < 8
        invariant
            i <= 8,
            value == crc16_bits(start, i as nat),
        decreases 8 - i,
    {
        if value & 0x8000u16 != 0 {
            value = (value << 1u16) ^ 0x1021u16;
        } else {
            value = value << 1u16;
        }
        i = i + 1;
    }
    value
}

/// CRC-16/XMODEM of a byte slice.
pub fn crc16_xmodem(data: &[u8]) -> (r: u16)
    ensures
        r == spec_crc16_xmodem(data@),
{
    let mut crc: u16 = 0;
    let mut i: usize = 0;
    while i < data.len()
        invariant
            i <= data.len(),
            crc == crc16_fold(0, data@.subrange(0, i as int)),
        decreases data.len() - i,
    {
        assert(data@.subrange(0, i + 1).drop_last() =~= data@.subrange(0, i as int));
        crc = crc16_xmodem_update(crc, data[i]);
        i = i + 1;
    }
    assert(data@.subrange(0, data.len() as int) =~= data@);
    crc
}

/// Feeds one byte into a reflected CRC-32/IEEE register.
pub fn crc32_ieee_update(crc: u32, byte: u8) -> (r: u32)
    ensures
        r == crc32_byte(crc, byte),
{
    let mut value: u32 = crc ^ (byte as u32);
    let ghost start = value;
    let mut i: usize = 0;
    while i < 8
        invariant
            i <= 8,
            value == crc32_bits(start, i as nat),
        decreases 8 - i,
    {
        if value & 1u32 != 0 {
            value = (value >> 1u32) ^ 0xEDB8_8320u32;
        } else {
            value = value >> 1u32;
        }
        i = i + 1;
    }
    value
}

/// CRC-32/IEEE of a byte slice.
pub fn crc32_ieee(data: &[u8]) -> (r: u32)
    ensures
        r == spec_crc32_ieee(data@),
{
    let mut crc: u32 = 0xffff_ffff;
    let mut i: usize = 0;
    while i < data.len()
        invariant
            i <= data.len(),
            crc == crc32_fold(0xffff_ffffu32, data@.subrange(0, i as int)),
        decreases data.len() - i,
    {
        assert(data@.subrange(0, i + 1).drop_last() =~= data@.subrange(0, i as int));
        crc = crc32_ieee_update(crc, data[i]);
        i = i + 1;
    }
    assert(data@.subrange(0, data.len() as int) =~= data@);
    !crc
}


/// Eight bit steps move a register whose high byte is clear up by one byte:
/// no feedback term is ever applied.
pub proof fn lemma_crc16_bits_small(a: u16)
    requires
        a < 256,
    ensures
        crc16_bits(a, 8) == a << 8u16,
{
    reveal_with_fuel(crc16_bits, 9);
    assert(crc16_bit(crc16_bit(crc16_bit(crc16_bit(crc16_bit(crc16_bit(crc16_bit(crc16_bit(a))))))))
        == a << 8u16) by (bit_vector)
        requires
            a < 256u16,
    ;
}

/// Feeding the CRC-16 register its own value, high byte first, clears it:
/// data followed by its big-endian CRC-16 leaves no remainder.
pub proof fn lemma_crc16_residue(r: u16)
    ensures
        crc16_byte(crc16_byte(r, (r / 256) as u8), (r % 256) as u8) == 0,
{
    let hi = (r / 256) as u8;
    let lo = (r % 256) as u8;
    let a = r ^ ((hi as u16) << 8u16);
    assert(a == r & 0xffu16 && a < 256u16) by (bit_vector)
        requires
            hi == (r / 256) as u8,
            a == r ^ ((hi as u16) << 8u16),
    ;
    lemma_crc16_bits_small(a);
    let x = crc16_byte(r, hi);
    assert(x == a << 8u16);
    let b = x ^ ((lo as u16) << 8u16);
    assert(b == 0u16) by (bit_vector)
        requires
            x == a << 8u16,
            a == r & 0xffu16,
            lo == (r % 256) as u8,
            b == x ^ ((lo as u16) << 8u16),
    ;
    lemma_crc16_bits_small(0);
    assert(0u16 << 8u16 == 0u16) by (bit_vector);
}

} // verus!
