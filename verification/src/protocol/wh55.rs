//! Fineoffset WH55 leak sensor: 9 bytes from the family byte (0x55), CRC over 9 == 0.

use super::{lemma_u16_be, spec_u16_be, u16_be, FrameError};
use crate::crc::{crc8_fineoffset, spec_crc8};
use crate::event::Wh55;
use vstd::prelude::*;

verus! {

pub const FRAME_LEN: usize = 9;

/// The reading a valid WH55 frame carries.
pub open spec fn spec_wh55_fields(b: Seq<u8>) -> Wh55 {
    Wh55 {
        id: spec_u16_be(b[2], b[3]),
        channel: ((b[1] >> 4u8) + 1) as u8,
        battery_fifths: b[4],
        raw_value: spec_u16_be(b[5], b[6]),
        high_sensitivity: (b[7] >> 7u8) & 1u8 == 1u8,
        alarm: (b[7] >> 6u8) & 1u8 == 1u8,
    }
}

/// What decoding `b` as a WH55 frame gives: the CRC over the first 9 bytes
/// (payload and CRC byte) must be 0.
pub open spec fn spec_decode_wh55(b: Seq<u8>) -> Result<Wh55, FrameError> {
    if b.len() < FRAME_LEN {
        Err(FrameError::Truncated)
    } else if b[0] != 0x55 {
        Err(FrameError::WrongFamily)
    } else if spec_crc8(b.subrange(0, 9), 0x31, 0) != 0 {
        Err(FrameError::Integrity)
    } else {
        Ok(spec_wh55_fields(b))
    }
}

proof fn lemma_wh55_bits(b1: u8, b7: u8)
    by (bit_vector)
    ensures
        (b1 >> 4u8) + 1 == b1 / 16 + 1,
        ((b7 >> 7u8) & 1u8 == 1u8) == (b7 & 0x80u8 != 0u8),
        ((b7 >> 6u8) & 1u8 == 1u8) == (b7 & 0x40u8 != 0u8),
        (b7 & 0x80u8 != 0u8) == (b7 >= 128),
        (b7 & 0x40u8 != 0u8) == ((b7 / 64) % 2 == 1),
{
}

/// What a WH55 frame means, byte by byte. It decodes exactly when it has 9
/// bytes, byte 0 is 0x55 and the CRC-8 (0x31) of all 9 is 0. The channel is
/// the high nibble of byte 1 plus one, the id bytes 2..4, the battery byte 4,
/// the raw reading bytes 5..7; bit 7 of byte 7 is the high-sensitivity
/// setting and bit 6 the leak alarm.
pub proof fn lemma_wh55_reading(b: Seq<u8>)
    ensures
        spec_decode_wh55(b) is Ok <==> {
            &&& b.len() >= 9
            &&& b[0] == 0x55
            &&& spec_crc8(b.subrange(0, 9), 0x31, 0) == 0
        },
        spec_decode_wh55(b) matches Ok(p) ==> {
            &&& p.id == b[2] * 256 + b[3]
            &&& p.channel == b[1] / 16 + 1
            &&& p.battery_fifths == b[4]
            &&& p.raw_value == b[5] * 256 + b[6]
            &&& p.high_sensitivity == (b[7] & 0x80u8 != 0u8)
            &&& p.high_sensitivity == (b[7] >= 128)
            &&& p.alarm == (b[7] & 0x40u8 != 0u8)
            &&& p.alarm == ((b[7] / 64) % 2 == 1)
        },
{
    if b.len() >= 9 {
        lemma_wh55_bits(b[1], b[7]);
        lemma_u16_be(b[2], b[3]);
        lemma_u16_be(b[5], b[6]);
    }
}

pub fn decode_frame(b: &[u8]) -> (r: Result<Wh55, FrameError>)
    ensures
        r == spec_decode_wh55(b@),
{
    if b.len() < FRAME_LEN {
        return Err(FrameError::Truncated);
    }
    if b[0] != 0x55 {
        return Err(FrameError::WrongFamily);
    }
    if crc8_fineoffset(&b[0..9]) != 0 {
        return Err(FrameError::Integrity);
    }
    let b1 = b[1];
    assert(b1 >> 4u8 <= 15u8) by (bit_vector);
    Ok(Wh55 {
        id: u16_be(b[2], b[3]),
        channel: (b1 >> 4) + 1,
        battery_fifths: b[4],
        raw_value: u16_be(b[5], b[6]),
        high_sensitivity: (b[7] >> 7) & 1 == 1,
        alarm: (b[7] >> 6) & 1 == 1,
    })
}

/// Decoder for the Fineoffset WH55 family.
pub struct Wh55Decoder;

impl super::Decoder for Wh55Decoder {
    open spec fn kind(&self) -> super::DecoderKind {
        super::DecoderKind::Wh55
    }

    fn name(&self) -> (r: &'static str) {
        super::DecoderKind::Wh55.name()
    }

    fn modulation(&self) -> (r: super::Modulation) {
        super::DecoderKind::Wh55.modulation()
    }

    fn bands(&self) -> (r: Vec<super::Band>) {
        super::DecoderKind::Wh55.bands()
    }

    fn decode(&self, bits: &[bool]) -> (r: Vec<super::Decoded>) {
        super::DecoderKind::Wh55.decode(bits)
    }
}

} // verus!
