//! Fineoffset WH46 / WH46D 7-in-1 indoor air quality sensor (NDIR CO₂,
//! Sensirion SPS30 particulates, temperature, humidity): 21 bytes after sync,
//! family 0x46, CRC over the first 19 bytes in byte 19, sum of the first 20 in
//! byte 20. Layout as in rtl_433's `src/devices/fineoffset_wh46.c`:
//!
//! ```text
//!  0  1  2  3  4  5  6  7  8  9 10 11 12 13 14 15 16 17 18 19 20
//! YY II II II 0T TT HH Bp pp BP PP CC CC qq qq QQ QQ ?? ?? XX AA
//! ```
//!
//! T: 11-bit temperature (offset 40, ×0.1 °C); H: humidity; B: battery bars
//! (1 MSB in byte 7, 2 LSBs in byte 9 — 6 means USB power); p/P/q/Q: 14-bit
//! PM2.5 / PM10 / PM1 / PM4 in 0.1 µg/m³; C: CO₂ in ppm; ??: constant 0x0190.

use super::{lemma_u16_be, spec_u16_be, u16_be, FrameError};
use crate::crc::{byte_sum, crc8_fineoffset, spec_crc8, sum8};
use crate::event::Wh46;
use vstd::prelude::*;

verus! {

pub const FRAME_LEN: usize = 21;

/// The battery-bars value the sensor sends while on USB power.
pub const EXTERNAL_POWER_BARS: u8 = 6;

/// A 14-bit particulate reading in 0.1 µg/m³.
pub open spec fn spec_pm(hi: u8, lo: u8) -> u16 {
    (((hi as u16) & 0x3fu16) << 8u16) | (lo as u16)
}

pub open spec fn wh46_battery_bars(b: Seq<u8>) -> u8 {
    ((b[7] & 0x40u8) >> 4u8) | ((b[9] & 0xc0u8) >> 6u8)
}

/// The reading a valid WH46 frame carries.
pub open spec fn spec_wh46_fields(b: Seq<u8>) -> Wh46 {
    let temp_raw = (((b[4] as u16) & 0x07u16) << 8u16) | (b[5] as u16);
    let bars = wh46_battery_bars(b);
    Wh46 {
        id: ((b[1] as u32) << 16u32) | ((b[2] as u32) << 8u32) | (b[3] as u32),
        battery_bars: bars,
        external_power: bars == EXTERNAL_POWER_BARS,
        battery_fifths: if bars > 5 { 5u8 } else { bars },
        temperature_c_x10: (temp_raw - 400) as i16,
        humidity_pct: b[6],
        co2_ppm: spec_u16_be(b[11], b[12]),
        pm1_ug_m3_x10: spec_pm(b[13], b[14]),
        pm2_5_ug_m3_x10: spec_pm(b[7], b[8]),
        pm4_ug_m3_x10: spec_pm(b[15], b[16]),
        pm10_ug_m3_x10: spec_pm(b[9], b[10]),
        unknown: spec_u16_be(b[17], b[18]),
    }
}

/// What decoding `b` as a WH46 frame gives: byte 19 is the CRC of the first
/// 19 bytes and byte 20 the sum of the first 20.
pub open spec fn spec_decode_wh46(b: Seq<u8>) -> Result<Wh46, FrameError> {
    if b.len() < FRAME_LEN {
        Err(FrameError::Truncated)
    } else if b[0] != 0x46 {
        Err(FrameError::WrongFamily)
    } else if spec_crc8(b.subrange(0, 19), 0x31, 0) != b[19] || byte_sum(b.subrange(0, 20)) % 256 != b[20] as nat {
        Err(FrameError::Integrity)
    } else {
        Ok(spec_wh46_fields(b))
    }
}

proof fn lemma_wh46_bits(b1: u8, b2: u8, b3: u8, b4: u8, b5: u8, b7: u8, b9: u8)
    by (bit_vector)
    ensures
        ((b1 as u32) << 16u32) | ((b2 as u32) << 8u32) | (b3 as u32) == b1 * 65536 + b2 * 256 + b3,
        (((b4 as u16) & 0x07u16) << 8u16) | (b5 as u16) == (b4 % 8) * 256 + b5,
        ((b7 & 0x40u8) >> 4u8) | ((b9 & 0xc0u8) >> 6u8) == ((b7 / 64) % 2) * 4 + b9 / 64,
{
}

proof fn lemma_pm_bits(hi: u8, lo: u8)
    by (bit_vector)
    ensures
        (((hi as u16) & 0x3fu16) << 8u16) | (lo as u16) == (hi % 64) * 256 + lo,
{
}

/// What a WH46 frame means, byte by byte (layout in the module comment). It
/// decodes exactly when it has 21 bytes, byte 0 is 0x46, byte 19 is the
/// CRC-8 (0x31) of bytes 0..19 and byte 20 the sum of bytes 0..20. The
/// battery bars are bit 6 of byte 7 (worth 4) and the top two bits of byte
/// 9; 6 bars means USB power, and the battery reads at most 5 fifths. The
/// temperature is 11 bits (low 3 of byte 4, then byte 5) less 400; each
/// particulate reading is the low 6 bits of its first byte then its second.
pub proof fn lemma_wh46_reading(b: Seq<u8>)
    ensures
        spec_decode_wh46(b) is Ok <==> {
            &&& b.len() >= 21
            &&& b[0] == 0x46
            &&& spec_crc8(b.subrange(0, 19), 0x31, 0) == b[19]
            &&& byte_sum(b.subrange(0, 20)) % 256 == b[20]
        },
        spec_decode_wh46(b) matches Ok(p) ==> {
            let bars = ((b[7] / 64) % 2) * 4 + b[9] / 64;
            &&& p.id == b[1] * 65536 + b[2] * 256 + b[3]
            &&& p.battery_bars == bars
            &&& p.external_power == (bars == 6)
            &&& p.battery_fifths == (if bars > 5 { 5 } else { bars })
            &&& p.temperature_c_x10 == (b[4] % 8) * 256 + b[5] - 400
            &&& p.humidity_pct == b[6]
            &&& p.co2_ppm == b[11] * 256 + b[12]
            &&& p.pm1_ug_m3_x10 == (b[13] % 64) * 256 + b[14]
            &&& p.pm2_5_ug_m3_x10 == (b[7] % 64) * 256 + b[8]
            &&& p.pm4_ug_m3_x10 == (b[15] % 64) * 256 + b[16]
            &&& p.pm10_ug_m3_x10 == (b[9] % 64) * 256 + b[10]
            &&& p.unknown == b[17] * 256 + b[18]
        },
{
    if b.len() >= 21 {
        lemma_wh46_bits(b[1], b[2], b[3], b[4], b[5], b[7], b[9]);
        lemma_pm_bits(b[13], b[14]);
        lemma_pm_bits(b[7], b[8]);
        lemma_pm_bits(b[15], b[16]);
        lemma_pm_bits(b[9], b[10]);
        lemma_u16_be(b[11], b[12]);
        lemma_u16_be(b[17], b[18]);
    }
}

fn pm(hi: u8, lo: u8) -> (r: u16)
    ensures
        r == spec_pm(hi, lo),
{
    ((hi as u16 & 0x3f) << 8) | lo as u16
}

pub fn decode_frame(b: &[u8]) -> (r: Result<Wh46, FrameError>)
    ensures
        r == spec_decode_wh46(b@),
{
    if b.len() < FRAME_LEN {
        return Err(FrameError::Truncated);
    }
    if b[0] != 0x46 {
        return Err(FrameError::WrongFamily);
    }
    if crc8_fineoffset(&b[0..19]) != b[19] || sum8(&b[0..20]) != b[20] {
        return Err(FrameError::Integrity);
    }
    let b4 = b[4];
    let b5 = b[5];
    let temp_raw = ((b4 as u16 & 0x07) << 8) | b5 as u16;
    assert(temp_raw <= 0x7ff) by (bit_vector)
        requires temp_raw == (((b4 as u16) & 0x07u16) << 8u16) | (b5 as u16);
    let battery_bars = ((b[7] & 0x40) >> 4) | ((b[9] & 0xc0) >> 6);
    Ok(Wh46 {
        id: ((b[1] as u32) << 16) | ((b[2] as u32) << 8) | (b[3] as u32),
        battery_bars,
        external_power: battery_bars == EXTERNAL_POWER_BARS,
        battery_fifths: if battery_bars > 5 { 5 } else { battery_bars },
        temperature_c_x10: temp_raw as i16 - 400,
        humidity_pct: b[6],
        co2_ppm: u16_be(b[11], b[12]),
        pm1_ug_m3_x10: pm(b[13], b[14]),
        pm2_5_ug_m3_x10: pm(b[7], b[8]),
        pm4_ug_m3_x10: pm(b[15], b[16]),
        pm10_ug_m3_x10: pm(b[9], b[10]),
        unknown: u16_be(b[17], b[18]),
    })
}

/// Decoder for the Fineoffset WH46 family.
pub struct Wh46Decoder;

impl super::Decoder for Wh46Decoder {
    open spec fn kind(&self) -> super::DecoderKind {
        super::DecoderKind::Wh46
    }

    fn name(&self) -> (r: &'static str) {
        super::DecoderKind::Wh46.name()
    }

    fn modulation(&self) -> (r: super::Modulation) {
        super::DecoderKind::Wh46.modulation()
    }

    fn bands(&self) -> (r: Vec<super::Band>) {
        super::DecoderKind::Wh46.bands()
    }

    fn decode(&self, bits: &[bool]) -> (r: Vec<super::Decoded>) {
        super::DecoderKind::Wh46.decode(bits)
    }
}

} // verus!
