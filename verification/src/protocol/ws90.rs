//! Fineoffset WS90: 32 bytes after sync, family 0x90, CRC over 31 then sum.

use super::{lemma_u16_be, spec_u16_be, u16_be, FrameError};
use crate::crc::{byte_sum, crc8_fineoffset, spec_crc8, sum8};
use crate::event::Ws90;
use vstd::prelude::*;

verus! {

pub const FRAME_LEN: usize = 32;

pub open spec fn ws90_temp_raw(b: Seq<u8>) -> u16 {
    (((b[7] as u16) & 0x03u16) << 8u16) | (b[8] as u16)
}

pub open spec fn ws90_wind_avg(b: Seq<u8>) -> u16 {
    (((b[7] as u16) & 0x10u16) << 4u16) | (b[10] as u16)
}

pub open spec fn ws90_wind_dir(b: Seq<u8>) -> u16 {
    (((b[7] as u16) & 0x20u16) << 3u16) | (b[11] as u16)
}

pub open spec fn ws90_wind_max(b: Seq<u8>) -> u16 {
    (((b[7] as u16) & 0x40u16) << 2u16) | (b[12] as u16)
}

/// Battery level: 1.4 V → 0 %, then one percent per 16 mV, capped at 100 %.
pub open spec fn ws90_battery_pct(battery_mv: u16) -> u8 {
    if battery_mv < 1400 {
        0u8
    } else if (battery_mv - 1400) / 16 > 100 {
        100u8
    } else {
        ((battery_mv - 1400) / 16) as u8
    }
}

/// The reading a valid WS90 frame carries (byte layout from rtl_433).
pub open spec fn spec_ws90_fields(b: Seq<u8>) -> Ws90 {
    let battery_mv = (b[6] as u16 * 20) as u16;
    let temp_raw = ws90_temp_raw(b);
    let wind_avg = ws90_wind_avg(b);
    let wind_dir = ws90_wind_dir(b);
    let wind_max = ws90_wind_max(b);
    let pressure = spec_u16_be(b[14], b[15]);
    let light_raw = spec_u16_be(b[4], b[5]);
    let supercap = b[21] & 0x3fu8;
    Ws90 {
        id: ((b[1] as u32) << 16u32) | ((b[2] as u32) << 8u32) | (b[3] as u32),
        battery_mv,
        battery_pct: ws90_battery_pct(battery_mv),
        temperature_c_x10: if temp_raw != 0x3ff { Some((temp_raw - 400) as i16) } else { None },
        humidity_pct: if b[9] != 0xff { Some(b[9]) } else { None },
        pressure_hpa: if pressure != 0x3fff { Some(pressure) } else { None },
        wind_dir_deg: if wind_dir != 0x1ff { Some(wind_dir) } else { None },
        wind_avg_m_s_x10: if wind_avg != 0x1ff { Some(wind_avg) } else { None },
        wind_max_m_s_x10: if wind_max != 0x1ff { Some(wind_max) } else { None },
        uv_index_x10: if b[13] != 0xff { Some(b[13]) } else { None },
        light_lux: if light_raw != 0xffff { Some((light_raw * 10) as u32) } else { None },
        rain_total_mm_x10: spec_u16_be(b[19], b[20]),
        rain_start: b[16] & 0x10u8 != 0,
        supercap_v_x10: if supercap != 0x3f { Some(supercap) } else { None },
        firmware: b[29],
        flags: b[7],
    }
}

/// What decoding `b` as a WS90 frame gives: the CRC over the first 31 bytes
/// (payload and CRC byte) must be 0 and byte 31 must be the sum of the first 31.
pub open spec fn spec_decode_ws90(b: Seq<u8>) -> Result<Ws90, FrameError> {
    if b.len() < FRAME_LEN {
        Err(FrameError::Truncated)
    } else if b[0] != 0x90 {
        Err(FrameError::WrongFamily)
    } else if spec_crc8(b.subrange(0, 31), 0x31, 0) != 0 || byte_sum(b.subrange(0, 31)) % 256 != b[31] as nat {
        Err(FrameError::Integrity)
    } else {
        Ok(spec_ws90_fields(b))
    }
}

fn fields(b: &[u8]) -> (r: Ws90)
    requires
        b.len() >= FRAME_LEN,
    ensures
        r == spec_ws90_fields(b@),
{
    let light_raw = u16_be(b[4], b[5]);
    let battery_mv = b[6] as u16 * 20;
    let battery_pct: u8 = if battery_mv < 1400 {
        0
    } else if (battery_mv - 1400) / 16 > 100 {
        100
    } else {
        ((battery_mv - 1400) / 16) as u8
    };
    let flags = b[7];
    let b8 = b[8];
    let temp_raw = ((flags as u16 & 0x03) << 8) | b8 as u16;
    let wind_avg = ((flags as u16 & 0x10) << 4) | b[10] as u16;
    let wind_dir = ((flags as u16 & 0x20) << 3) | b[11] as u16;
    let wind_max = ((flags as u16 & 0x40) << 2) | b[12] as u16;
    let pressure = u16_be(b[14], b[15]);
    let supercap = b[21] & 0x3f;
    assert(temp_raw == ws90_temp_raw(b@));
    assert(temp_raw <= 0x3ff) by (bit_vector)
        requires temp_raw == (((flags as u16) & 0x03u16) << 8u16) | (b8 as u16);
    Ws90 {
        id: ((b[1] as u32) << 16) | ((b[2] as u32) << 8) | (b[3] as u32),
        battery_mv,
        battery_pct,
        temperature_c_x10: if temp_raw != 0x3ff { Some(temp_raw as i16 - 400) } else { None },
        humidity_pct: if b[9] != 0xff { Some(b[9]) } else { None },
        pressure_hpa: if pressure != 0x3fff { Some(pressure) } else { None },
        wind_dir_deg: if wind_dir != 0x1ff { Some(wind_dir) } else { None },
        wind_avg_m_s_x10: if wind_avg != 0x1ff { Some(wind_avg) } else { None },
        wind_max_m_s_x10: if wind_max != 0x1ff { Some(wind_max) } else { None },
        uv_index_x10: if b[13] != 0xff { Some(b[13]) } else { None },
        light_lux: if light_raw != 0xffff { Some(light_raw as u32 * 10) } else { None },
        rain_total_mm_x10: u16_be(b[19], b[20]),
        rain_start: b[16] & 0x10 != 0,
        supercap_v_x10: if supercap != 0x3f { Some(supercap) } else { None },
        firmware: b[29],
        flags,
    }
}

proof fn lemma_ws90_bits(b1: u8, b2: u8, b3: u8, b7: u8, b8: u8, b10: u8, b11: u8, b12: u8, b16: u8, b21: u8)
    by (bit_vector)
    ensures
        ((b1 as u32) << 16u32) | ((b2 as u32) << 8u32) | (b3 as u32) == b1 * 65536 + b2 * 256 + b3,
        (((b7 as u16) & 0x03u16) << 8u16) | (b8 as u16) == (b7 % 4) * 256 + b8,
        (((b7 as u16) & 0x10u16) << 4u16) | (b10 as u16) == ((b7 / 16) % 2) * 256 + b10,
        (((b7 as u16) & 0x20u16) << 3u16) | (b11 as u16) == ((b7 / 32) % 2) * 256 + b11,
        (((b7 as u16) & 0x40u16) << 2u16) | (b12 as u16) == ((b7 / 64) % 2) * 256 + b12,
        (b16 & 0x10u8 != 0) == ((b16 / 16) % 2 == 1),
        b21 & 0x3fu8 == b21 % 64,
{
}

/// What a WS90 frame means, byte by byte (rtl_433's layout). It decodes
/// exactly when it has 32 bytes, byte 0 is 0x90, the CRC-8 (0x31) of bytes
/// 0..31 is 0 and byte 31 is their sum. Byte 7 holds flags: bits 0-1 are the
/// high bits of the temperature (byte 8), bit 4 the ninth bit of the average
/// wind (byte 10), bit 5 that of the wind direction (byte 11), bit 6 that of
/// the gust (byte 12). An all-ones field means "no reading".
pub proof fn lemma_ws90_reading(b: Seq<u8>)
    ensures
        spec_decode_ws90(b) is Ok <==> {
            &&& b.len() >= 32
            &&& b[0] == 0x90
            &&& spec_crc8(b.subrange(0, 31), 0x31, 0) == 0
            &&& byte_sum(b.subrange(0, 31)) % 256 == b[31]
        },
        spec_decode_ws90(b) matches Ok(p) ==> {
            let temp = (b[7] % 4) * 256 + b[8];
            let avg = ((b[7] / 16) % 2) * 256 + b[10];
            let dir = ((b[7] / 32) % 2) * 256 + b[11];
            let gust = ((b[7] / 64) % 2) * 256 + b[12];
            let pressure = b[14] * 256 + b[15];
            let light = b[4] * 256 + b[5];
            &&& p.id == b[1] * 65536 + b[2] * 256 + b[3]
            &&& p.battery_mv == b[6] * 20
            &&& p.temperature_c_x10 == (if temp != 1023 { Some((temp - 400) as i16) } else { None })
            &&& p.humidity_pct == (if b[9] != 255 { Some(b[9]) } else { None })
            &&& p.pressure_hpa == (if pressure != 16383 { Some(pressure as u16) } else { None })
            &&& p.wind_avg_m_s_x10 == (if avg != 511 { Some(avg as u16) } else { None })
            &&& p.wind_dir_deg == (if dir != 511 { Some(dir as u16) } else { None })
            &&& p.wind_max_m_s_x10 == (if gust != 511 { Some(gust as u16) } else { None })
            &&& p.uv_index_x10 == (if b[13] != 255 { Some(b[13]) } else { None })
            &&& p.light_lux == (if light != 65535 { Some((light * 10) as u32) } else { None })
            &&& p.rain_total_mm_x10 == b[19] * 256 + b[20]
            &&& p.rain_start == ((b[16] / 16) % 2 == 1)
            &&& p.supercap_v_x10 == (if b[21] % 64 != 63 { Some(b[21] % 64) } else { None })
            &&& p.firmware == b[29]
            &&& p.flags == b[7]
        },
{
    if b.len() >= 32 {
        lemma_ws90_bits(b[1], b[2], b[3], b[7], b[8], b[10], b[11], b[12], b[16], b[21]);
        lemma_u16_be(b[14], b[15]);
        lemma_u16_be(b[4], b[5]);
        lemma_u16_be(b[19], b[20]);
    }
}

pub fn decode_frame(b: &[u8]) -> (r: Result<Ws90, FrameError>)
    ensures
        r == spec_decode_ws90(b@),
{
    if b.len() < FRAME_LEN {
        return Err(FrameError::Truncated);
    }
    if b[0] != 0x90 {
        return Err(FrameError::WrongFamily);
    }
    // CRC over the first 31 bytes (payload + CRC byte) must be 0; byte 31 is the sum of the first 31.
    let head = &b[0..31];
    if crc8_fineoffset(head) != 0 || sum8(head) != b[31] {
        return Err(FrameError::Integrity);
    }
    Ok(fields(b))
}

/// Decoder for the Fineoffset WS90 family.
pub struct Ws90Decoder;

impl super::Decoder for Ws90Decoder {
    open spec fn kind(&self) -> super::DecoderKind {
        super::DecoderKind::Ws90
    }

    fn name(&self) -> (r: &'static str) {
        super::DecoderKind::Ws90.name()
    }

    fn modulation(&self) -> (r: super::Modulation) {
        super::DecoderKind::Ws90.modulation()
    }

    fn bands(&self) -> (r: Vec<super::Band>) {
        super::DecoderKind::Ws90.bands()
    }

    fn decode(&self, bits: &[bool]) -> (r: Vec<super::Decoded>) {
        super::DecoderKind::Ws90.decode(bits)
    }
}

} // verus!
