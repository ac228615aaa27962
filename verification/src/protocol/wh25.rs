//! Fineoffset WH25 / WH32 / WH32B indoor sensor: 8 bytes after sync, type nibble
//! 0xE (or 0xD for the pressure-less WH32), sum over 6 bytes, xor-nibble-swap
//! check for the WH25.

use super::{lemma_u16_be, spec_u16_be, u16_be, FrameError};
use crate::crc::{byte_sum, byte_xor, sum8, xor8};
use crate::event::{Wh25, Wh25Variant};
use vstd::prelude::*;

verus! {

pub const FRAME_LEN: usize = 8;

/// The two nibbles of a byte swapped (`u8::rotate_right(4)`).
pub open spec fn nibble_swap(x: u8) -> u8 {
    ((x >> 4u8) | (x << 4u8)) as u8
}

/// rtl_433 tells the variants apart by transmission length: 160..190 bits or
/// more than 510 bits is a WH32B.
pub open spec fn long_burst(burst_bits: usize) -> bool {
    (160 <= burst_bits < 190) || burst_bits > 510
}

pub open spec fn spec_wh25_variant(b: Seq<u8>, burst_bits: usize) -> Wh25Variant {
    if !long_burst(burst_bits) {
        Wh25Variant::Wh25
    } else if b[0] & 0xf0u8 == 0xd0u8 {
        Wh25Variant::Wh32
    } else {
        Wh25Variant::Wh32b
    }
}

/// The reading a valid WH25/WH32 frame carries.
pub open spec fn spec_wh25_fields(b: Seq<u8>, burst_bits: usize) -> Wh25 {
    let temp_raw = (((b[1] as u16) & 0x03u16) << 8u16) | (b[2] as u16);
    let pressure_raw = spec_u16_be(b[4], b[5]);
    Wh25 {
        id: ((b[0] & 0x0fu8) << 4u8) | (b[1] >> 4u8),
        variant: spec_wh25_variant(b, burst_bits),
        battery_ok: b[1] & 0x08u8 == 0,
        temperature_c_x10: if temp_raw != 0x7ff { Some((temp_raw - 400) as i16) } else { None },
        humidity_pct: b[3],
        pressure_hpa_x10: if pressure_raw != 0xffff { Some(pressure_raw) } else { None },
    }
}

/// What decoding `b` as a WH25/WH32 frame gives. A type nibble of 0xE is
/// accepted always, 0xD only in a long burst (WH32); byte 6 is the sum of the
/// first 6 bytes, and for the WH25 byte 7 is their xor with nibbles swapped.
pub open spec fn spec_decode_wh25(b: Seq<u8>, burst_bits: usize) -> Result<Wh25, FrameError> {
    if b.len() < FRAME_LEN {
        Err(FrameError::Truncated)
    } else if !(b[0] & 0xf0u8 == 0xe0u8 || (b[0] & 0xf0u8 == 0xd0u8 && long_burst(burst_bits))) {
        Err(FrameError::WrongFamily)
    } else if byte_sum(b.subrange(0, 6)) % 256 != b[6] as nat {
        Err(FrameError::Integrity)
    } else if !long_burst(burst_bits) && nibble_swap(byte_xor(b.subrange(0, 6))) != b[7] {
        Err(FrameError::Integrity)
    } else {
        Ok(spec_wh25_fields(b, burst_bits))
    }
}

proof fn lemma_wh25_bits(b0: u8, b1: u8, b2: u8, x: u8)
    by (bit_vector)
    ensures
        ((b0 & 0x0fu8) << 4u8) | (b1 >> 4u8) == (b0 % 16) * 16 + b1 / 16,
        (b0 & 0xf0u8 == 0xe0u8) == (b0 / 16 == 14),
        (b0 & 0xf0u8 == 0xd0u8) == (b0 / 16 == 13),
        (b1 & 0x08u8 == 0) == ((b1 / 8) % 2 == 0),
        (((b1 as u16) & 0x03u16) << 8u16) | (b2 as u16) == (b1 % 4) * 256 + b2,
        ((x >> 4u8) | (x << 4u8)) as u8 == (x % 16) * 16 + x / 16,
{
}

/// What a WH25-family frame of a burst of `n` bits means, byte by byte. A
/// long burst is 160..190 bits or more than 510. The frame decodes exactly
/// when it has 8 bytes, its type nibble (high nibble of byte 0) is 14, or 13
/// in a long burst, byte 6 is the sum of bytes 0..6, and, unless the burst
/// is long, byte 7 is the xor of bytes 0..6 with its nibbles swapped. A
/// short burst is a WH25, a long one a WH32 (type 13) or WH32B (type 14).
/// The id is the low nibble of byte 0 and the high nibble of byte 1; bit 3
/// of byte 1 set means a low battery; the temperature is 10 bits (low 2 of
/// byte 1, then byte 2) less 400; byte 3 is the humidity and bytes 4..6 the
/// pressure, all ones meaning none.
pub proof fn lemma_wh25_reading(b: Seq<u8>, n: usize)
    ensures
        spec_decode_wh25(b, n) is Ok <==> {
            let long = (160 <= n < 190) || n > 510;
            let x = byte_xor(b.subrange(0, 6));
            &&& b.len() >= 8
            &&& (b[0] / 16 == 14 || (b[0] / 16 == 13 && long))
            &&& byte_sum(b.subrange(0, 6)) % 256 == b[6]
            &&& (long || (x % 16) * 16 + x / 16 == b[7])
        },
        spec_decode_wh25(b, n) matches Ok(p) ==> {
            let long = (160 <= n < 190) || n > 510;
            let pressure = b[4] * 256 + b[5];
            &&& p.id == (b[0] % 16) * 16 + b[1] / 16
            &&& p.variant == (if !long {
                Wh25Variant::Wh25
            } else if b[0] / 16 == 13 {
                Wh25Variant::Wh32
            } else {
                Wh25Variant::Wh32b
            })
            &&& p.battery_ok == ((b[1] / 8) % 2 == 0)
            &&& p.temperature_c_x10 == Some(((b[1] % 4) * 256 + b[2] - 400) as i16)
            &&& p.humidity_pct == b[3]
            &&& p.pressure_hpa_x10 == (if pressure != 65535 { Some(pressure as u16) } else { None })
        },
{
    if b.len() >= 8 {
        lemma_wh25_bits(b[0], b[1], b[2], byte_xor(b.subrange(0, 6)));
        lemma_u16_be(b[4], b[5]);
    }
}

/// `burst_bits` selects the variant the way rtl_433 does (by transmission length).
pub fn decode_frame(b: &[u8], burst_bits: usize) -> (r: Result<Wh25, FrameError>)
    ensures
        r == spec_decode_wh25(b@, burst_bits),
{
    if b.len() < FRAME_LEN {
        return Err(FrameError::Truncated);
    }
    let long = (160 <= burst_bits && burst_bits < 190) || burst_bits > 510;
    let nibble = b[0] & 0xf0;
    let variant = if nibble == 0xd0 && long {
        Wh25Variant::Wh32
    } else if nibble == 0xe0 {
        if long {
            Wh25Variant::Wh32b
        } else {
            Wh25Variant::Wh25
        }
    } else {
        return Err(FrameError::WrongFamily);
    };
    if sum8(&b[0..6]) != b[6] {
        return Err(FrameError::Integrity);
    }
    let x = xor8(&b[0..6]);
    let x = (x >> 4) | (x << 4);
    if !long && x != b[7] {
        return Err(FrameError::Integrity);
    }
    let b1 = b[1];
    let b2 = b[2];
    let temp_raw = ((b1 as u16 & 0x03) << 8) | b2 as u16;
    assert(temp_raw <= 0x3ff) by (bit_vector)
        requires temp_raw == (((b1 as u16) & 0x03u16) << 8u16) | (b2 as u16);
    let pressure_raw = u16_be(b[4], b[5]);
    Ok(Wh25 {
        id: ((b[0] & 0x0f) << 4) | (b1 >> 4),
        variant,
        battery_ok: b1 & 0x08 == 0,
        temperature_c_x10: if temp_raw != 0x7ff { Some(temp_raw as i16 - 400) } else { None },
        humidity_pct: b[3],
        pressure_hpa_x10: if pressure_raw != 0xffff { Some(pressure_raw) } else { None },
    })
}

/// Decoder for the Fineoffset WH25 / WH32 family.
pub struct Wh25Decoder;

impl super::Decoder for Wh25Decoder {
    open spec fn kind(&self) -> super::DecoderKind {
        super::DecoderKind::Wh25
    }

    fn name(&self) -> (r: &'static str) {
        super::DecoderKind::Wh25.name()
    }

    fn modulation(&self) -> (r: super::Modulation) {
        super::DecoderKind::Wh25.modulation()
    }

    fn bands(&self) -> (r: Vec<super::Band>) {
        super::DecoderKind::Wh25.bands()
    }

    fn decode(&self, bits: &[bool]) -> (r: Vec<super::Decoded>) {
        super::DecoderKind::Wh25.decode(bits)
    }
}

} // verus!
