//! Fineoffset WH51 soil moisture: 14 bytes after sync, family 0x51.

use super::FrameError;
use crate::crc::{byte_sum, crc8_fineoffset, spec_crc8, sum8};
use crate::event::Wh51;
use vstd::prelude::*;

verus! {

pub const FRAME_LEN: usize = 14;

/// rtl_433's alkaline-cell mapping of the 5-bit battery field.
pub open spec fn wh51_battery_pct(battery_bits: u8) -> u8 {
    if battery_bits >= 16 {
        100u8
    } else if battery_bits == 15 {
        90u8
    } else if battery_bits == 14 {
        50u8
    } else if battery_bits == 13 {
        10u8
    } else {
        0u8
    }
}

/// The reading a valid WH51 frame carries.
pub open spec fn spec_wh51_fields(b: Seq<u8>) -> Wh51 {
    let battery_bits = b[4] & 0x1fu8;
    Wh51 {
        id: ((b[1] as u32) << 16u32) | ((b[2] as u32) << 8u32) | (b[3] as u32),
        battery_mv: (battery_bits as u16 * 100) as u16,
        battery_pct: wh51_battery_pct(battery_bits),
        moisture_pct: b[6],
        boost: (b[4] & 0xe0u8) >> 5u8,
        ad_raw: (((b[7] & 0x01u8) as u16) << 8u16) | (b[8] as u16),
    }
}

/// What decoding `b` as a WH51 frame gives: byte 13 is the sum of the first
/// 13 bytes and byte 12 the CRC of the first 12.
pub open spec fn spec_decode_wh51(b: Seq<u8>) -> Result<Wh51, FrameError> {
    if b.len() < FRAME_LEN {
        Err(FrameError::Truncated)
    } else if b[0] != 0x51 {
        Err(FrameError::WrongFamily)
    } else if byte_sum(b.subrange(0, 13)) % 256 != b[13] as nat || spec_crc8(b.subrange(0, 12), 0x31, 0) != b[12] {
        Err(FrameError::Integrity)
    } else {
        Ok(spec_wh51_fields(b))
    }
}

proof fn lemma_wh51_bits(b1: u8, b2: u8, b3: u8, b4: u8, b7: u8, b8: u8)
    by (bit_vector)
    ensures
        ((b1 as u32) << 16u32) | ((b2 as u32) << 8u32) | (b3 as u32) == b1 * 65536 + b2 * 256 + b3,
        b4 & 0x1fu8 == b4 % 32,
        (b4 & 0xe0u8) >> 5u8 == b4 / 32,
        (((b7 & 0x01u8) as u16) << 8u16) | (b8 as u16) == (b7 % 2) * 256 + b8,
{
}

/// What a WH51 frame means, byte by byte. It decodes exactly when it has 14
/// bytes, byte 0 is 0x51, byte 12 is the CRC-8 (0x31) of bytes 0..12 and
/// byte 13 the sum of bytes 0..13. The id is bytes 1..4; the low 5 bits of
/// byte 4 are the battery in 0.1 V (16 and up full, 15 at 90 %, 14 at 50 %,
/// 13 at 10 %, less empty) and its high 3 bits the boost; byte 6 is the soil
/// moisture; the raw AD reading is bit 0 of byte 7 then byte 8.
pub proof fn lemma_wh51_reading(b: Seq<u8>)
    ensures
        spec_decode_wh51(b) is Ok <==> {
            &&& b.len() >= 14
            &&& b[0] == 0x51
            &&& spec_crc8(b.subrange(0, 12), 0x31, 0) == b[12]
            &&& byte_sum(b.subrange(0, 13)) % 256 == b[13]
        },
        spec_decode_wh51(b) matches Ok(p) ==> {
            let bat = b[4] % 32;
            &&& p.id == b[1] * 65536 + b[2] * 256 + b[3]
            &&& p.battery_mv == bat * 100
            &&& p.battery_pct == (if bat >= 16 { 100 } else if bat == 15 { 90 } else if bat == 14 { 50 } else if bat == 13 { 10 } else { 0int })
            &&& p.moisture_pct == b[6]
            &&& p.boost == b[4] / 32
            &&& p.ad_raw == (b[7] % 2) * 256 + b[8]
        },
{
    if b.len() >= 14 {
        lemma_wh51_bits(b[1], b[2], b[3], b[4], b[7], b[8]);
    }
}

pub fn decode_frame(b: &[u8]) -> (r: Result<Wh51, FrameError>)
    ensures
        r == spec_decode_wh51(b@),
{
    if b.len() < FRAME_LEN {
        return Err(FrameError::Truncated);
    }
    if b[0] != 0x51 {
        return Err(FrameError::WrongFamily);
    }
    if sum8(&b[0..13]) != b[13] || crc8_fineoffset(&b[0..12]) != b[12] {
        return Err(FrameError::Integrity);
    }
    let battery_bits = b[4] & 0x1f;
    let battery_pct: u8 = if battery_bits >= 16 {
        100
    } else if battery_bits == 15 {
        90
    } else if battery_bits == 14 {
        50
    } else if battery_bits == 13 {
        10
    } else {
        0
    };
    Ok(Wh51 {
        id: ((b[1] as u32) << 16) | ((b[2] as u32) << 8) | (b[3] as u32),
        battery_mv: battery_bits as u16 * 100,
        battery_pct,
        moisture_pct: b[6],
        boost: (b[4] & 0xe0) >> 5,
        ad_raw: (((b[7] & 0x01) as u16) << 8) | b[8] as u16,
    })
}

/// Decoder for the Fineoffset WH51 family.
pub struct Wh51Decoder;

impl super::Decoder for Wh51Decoder {
    open spec fn kind(&self) -> super::DecoderKind {
        super::DecoderKind::Wh51
    }

    fn name(&self) -> (r: &'static str) {
        super::DecoderKind::Wh51.name()
    }

    fn modulation(&self) -> (r: super::Modulation) {
        super::DecoderKind::Wh51.modulation()
    }

    fn bands(&self) -> (r: Vec<super::Band>) {
        super::DecoderKind::Wh51.bands()
    }

    fn decode(&self, bits: &[bool]) -> (r: Vec<super::Decoded>) {
        super::DecoderKind::Wh51.decode(bits)
    }
}

} // verus!
