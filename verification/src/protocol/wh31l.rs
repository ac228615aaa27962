//! Fineoffset WH57 lightning sensor (rtl_433: FineOffset-WH31L): 9 bytes from
//! family byte 0x57, CRC over 8 == 0, byte 8 = sum of first 8.

use super::FrameError;
use crate::crc::{byte_sum, crc8_fineoffset, spec_crc8, sum8};
use crate::event::{LightningState, Wh31l};
use vstd::prelude::*;

verus! {

pub const FRAME_LEN: usize = 9;

pub open spec fn spec_lightning_state(state: u8) -> LightningState {
    if state == 0 {
        LightningState::Reset
    } else if state == 1 {
        LightningState::Interference
    } else if state == 4 {
        LightningState::Noise
    } else if state == 8 {
        LightningState::Strike
    } else {
        LightningState::Unknown(state)
    }
}

/// The reading a valid WH57 frame carries.
pub open spec fn spec_wh31l_fields(b: Seq<u8>) -> Wh31l {
    let state = b[1] >> 4u8;
    let dist = b[5] & 0x3fu8;
    Wh31l {
        id: (((b[1] & 0x0fu8) as u32) << 16u32) | ((b[2] as u32) << 8u32) | (b[3] as u32),
        battery_halves: (b[4] & 0x06u8) >> 1u8,
        state: spec_lightning_state(state),
        storm_dist_km: if dist != 63 { Some(dist) } else { None },
        strike_count: b[6],
        flags: ((state as u16) << 12u16) | ((b[4] as u16) << 4u16) | ((b[5] >> 4u8) as u16),
    }
}

/// What decoding `b` as a WH57 frame gives: the CRC over the first 8 bytes
/// must be 0 and byte 8 the sum of the first 8.
pub open spec fn spec_decode_wh31l(b: Seq<u8>) -> Result<Wh31l, FrameError> {
    if b.len() < FRAME_LEN {
        Err(FrameError::Truncated)
    } else if b[0] != 0x57 {
        Err(FrameError::WrongFamily)
    } else if spec_crc8(b.subrange(0, 8), 0x31, 0) != 0 || byte_sum(b.subrange(0, 8)) % 256 != b[8] as nat {
        Err(FrameError::Integrity)
    } else {
        Ok(spec_wh31l_fields(b))
    }
}

proof fn lemma_wh31l_bits(b1: u8, b2: u8, b3: u8, b4: u8, b5: u8)
    by (bit_vector)
    ensures
        (((b1 & 0x0fu8) as u32) << 16u32) | ((b2 as u32) << 8u32) | (b3 as u32) == (b1 % 16) * 65536 + b2 * 256 + b3,
        b1 >> 4u8 == b1 / 16,
        (b4 & 0x06u8) >> 1u8 == (b4 / 2) % 4,
        b5 & 0x3fu8 == b5 % 64,
        (((b1 >> 4u8) as u16) << 12u16) | ((b4 as u16) << 4u16) | ((b5 >> 4u8) as u16) == (b1 / 16) * 4096 + b4 * 16 + b5 / 16,
{
}

/// What a WH57 frame means, byte by byte. It decodes exactly when it has 9
/// bytes, byte 0 is 0x57, the CRC-8 (0x31) of bytes 0..8 is 0 and byte 8 is
/// their sum. The high nibble of byte 1 is the state (0 reset, 1
/// interference, 4 noise, 8 strike), the low nibble with bytes 2 and 3 the
/// id; bits 1-2 of byte 4 are the battery in halves; the low 6 bits of byte
/// 5 are the storm distance in km, 63 meaning none; byte 6 counts strikes.
pub proof fn lemma_wh31l_reading(b: Seq<u8>)
    ensures
        spec_decode_wh31l(b) is Ok <==> {
            &&& b.len() >= 9
            &&& b[0] == 0x57
            &&& spec_crc8(b.subrange(0, 8), 0x31, 0) == 0
            &&& byte_sum(b.subrange(0, 8)) % 256 == b[8]
        },
        spec_decode_wh31l(b) matches Ok(p) ==> {
            let s = b[1] / 16;
            &&& p.id == (b[1] % 16) * 65536 + b[2] * 256 + b[3]
            &&& p.battery_halves == (b[4] / 2) % 4
            &&& p.state == (if s == 0 {
                LightningState::Reset
            } else if s == 1 {
                LightningState::Interference
            } else if s == 4 {
                LightningState::Noise
            } else if s == 8 {
                LightningState::Strike
            } else {
                LightningState::Unknown(s as u8)
            })
            &&& p.storm_dist_km == (if b[5] % 64 != 63 { Some(b[5] % 64) } else { None })
            &&& p.strike_count == b[6]
            &&& p.flags == s * 4096 + b[4] * 16 + b[5] / 16
        },
{
    if b.len() >= 9 {
        lemma_wh31l_bits(b[1], b[2], b[3], b[4], b[5]);
    }
}

pub fn decode_frame(b: &[u8]) -> (r: Result<Wh31l, FrameError>)
    ensures
        r == spec_decode_wh31l(b@),
{
    if b.len() < FRAME_LEN {
        return Err(FrameError::Truncated);
    }
    if b[0] != 0x57 {
        return Err(FrameError::WrongFamily);
    }
    if crc8_fineoffset(&b[0..8]) != 0 || sum8(&b[0..8]) != b[8] {
        return Err(FrameError::Integrity);
    }
    let state = b[1] >> 4;
    let dist = b[5] & 0x3f;
    let st = if state == 0 {
        LightningState::Reset
    } else if state == 1 {
        LightningState::Interference
    } else if state == 4 {
        LightningState::Noise
    } else if state == 8 {
        LightningState::Strike
    } else {
        LightningState::Unknown(state)
    };
    Ok(Wh31l {
        id: (((b[1] & 0x0f) as u32) << 16) | ((b[2] as u32) << 8) | b[3] as u32,
        battery_halves: (b[4] & 0x06) >> 1,
        state: st,
        storm_dist_km: if dist != 63 { Some(dist) } else { None },
        strike_count: b[6],
        flags: ((state as u16) << 12) | ((b[4] as u16) << 4) | (b[5] >> 4) as u16,
    })
}

/// Decoder for the Fineoffset WH57 (WH31L) family.
pub struct Wh31lDecoder;

impl super::Decoder for Wh31lDecoder {
    open spec fn kind(&self) -> super::DecoderKind {
        super::DecoderKind::Wh31l
    }

    fn name(&self) -> (r: &'static str) {
        super::DecoderKind::Wh31l.name()
    }

    fn modulation(&self) -> (r: super::Modulation) {
        super::DecoderKind::Wh31l.modulation()
    }

    fn bands(&self) -> (r: Vec<super::Band>) {
        super::DecoderKind::Wh31l.bands()
    }

    fn decode(&self, bits: &[bool]) -> (r: Vec<super::Decoded>) {
        super::DecoderKind::Wh31l.decode(bits)
    }
}

} // verus!
