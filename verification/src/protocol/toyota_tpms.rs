//! Toyota / Pacific Industries PMV-C210 TPMS: FSK, 52 µs bits (19.23 kbaud),
//! 14-bit sync then 72 bits differential-Manchester data (9 bytes), CRC-8
//! poly 0x07 init 0x80. Layout as in rtl_433 `devices/tpms_toyota.c`.

use super::{contains_raw, has_raw, views, Decoded, DecodedView, FrameError};
use crate::bits::{differential_manchester_decode, extract_bytes, find_pattern, matches_at, spec_dm_decode, spec_extract_bytes};
use crate::crc::{crc8, spec_crc8};
use crate::event::{Payload, ToyotaTpms};
use vstd::prelude::*;

verus! {

/// 10⁶ / 52 baud, in millibaud.
pub const SYMBOL_RATE_MILLIHZ: u64 = 19_230_769;

/// 12 bits of the sync (`…1 0101 0011 11` → 0xa9e0); the last bit is the
/// first half-bit of the data, handed to the differential Manchester decoder.
pub open spec fn spec_sync() -> Seq<u8> {
    seq![0xa9u8, 0xe0u8]
}

pub open spec fn tpms_pressure(b: Seq<u8>) -> u8 {
    (((b[4] & 0x7fu8) << 1u8) | (b[5] >> 7u8)) as u8
}

/// The reading a valid frame carries.
pub open spec fn spec_tpms_fields(b: Seq<u8>) -> ToyotaTpms {
    let temp = (((b[5] & 0x7fu8) << 1u8) | (b[6] >> 7u8)) as u8;
    ToyotaTpms {
        id: ((b[0] as u32) << 24u32) | ((b[1] as u32) << 16u32) | ((b[2] as u32) << 8u32) | (b[3] as u32),
        pressure_psi_x4: (tpms_pressure(b) - 28) as i16,
        temperature_c: (temp - 40) as i16,
        status: (b[4] & 0x80u8) | (b[6] & 0x7fu8),
    }
}

/// What decoding 9 frame bytes gives: byte 8 is the CRC-8 (0x07, init 0x80)
/// of the first 8, and the pressure is sent twice, the second copy inverted.
pub open spec fn spec_decode_tpms(b: Seq<u8>) -> Result<ToyotaTpms, FrameError> {
    if b.len() < 9 {
        Err(FrameError::Truncated)
    } else if spec_crc8(b.subrange(0, 8), 0x07, 0x80) != b[8] {
        Err(FrameError::Integrity)
    } else if tpms_pressure(b) != b[7] ^ 0xffu8 {
        Err(FrameError::Integrity)
    } else {
        Ok(spec_tpms_fields(b))
    }
}

proof fn lemma_tpms_bits(b0: u8, b1: u8, b2: u8, b3: u8, b4: u8, b5: u8, b6: u8)
    by (bit_vector)
    ensures
        ((b0 as u32) << 24u32) | ((b1 as u32) << 16u32) | ((b2 as u32) << 8u32) | (b3 as u32)
            == b0 * 16777216 + b1 * 65536 + b2 * 256 + b3,
        (((b4 & 0x7fu8) << 1u8) | (b5 >> 7u8)) as u8 == (b4 % 128) * 2 + b5 / 128,
        (((b5 & 0x7fu8) << 1u8) | (b6 >> 7u8)) as u8 == (b5 % 128) * 2 + b6 / 128,
        (b4 & 0x80u8) | (b6 & 0x7fu8) == (b4 / 128) * 128 + b6 % 128,
        b6 ^ 0xffu8 == 255 - b6,
{
}

/// What a Toyota frame means, byte by byte: it decodes exactly when it has 9
/// bytes, byte 8 is the CRC-8 (0x07, init 0x80) of the first 8, and byte 7
/// is the 8-bit pressure with every bit inverted. The tire id is bytes 0..4
/// big-endian; the pressure (quarter psi above 7 psi) is the 8 bits from
/// bit 6 of byte 4 to bit 7 of byte 5, less 28; the temperature (°C) is the
/// 8 bits from bit 6 of byte 5 to bit 7 of byte 6, less 40, so raw values
/// under 40 are frost; the status is bit 7 of byte 4 with the low 7 bits of
/// byte 6.
pub proof fn lemma_tpms_reading(b: Seq<u8>)
    ensures
        spec_decode_tpms(b) is Ok <==> {
            &&& b.len() >= 9
            &&& spec_crc8(b.subrange(0, 8), 0x07, 0x80) == b[8]
            &&& (b[4] % 128) * 2 + b[5] / 128 == 255 - b[7]
        },
        spec_decode_tpms(b) matches Ok(p) ==> {
            &&& p.id == b[0] * 16777216 + b[1] * 65536 + b[2] * 256 + b[3]
            &&& p.pressure_psi_x4 == (b[4] % 128) * 2 + b[5] / 128 - 28
            &&& p.temperature_c == (b[5] % 128) * 2 + b[6] / 128 - 40
            &&& p.status == (b[4] / 128) * 128 + b[6] % 128
        },
{
    if b.len() >= 9 {
        lemma_tpms_bits(b[0], b[1], b[2], b[3], b[4], b[5], b[6]);
        lemma_tpms_bits(b[0], b[1], b[2], b[3], b[4], b[5], b[7]);
    }
}

pub fn decode_frame(b: &[u8]) -> (r: Result<ToyotaTpms, FrameError>)
    ensures
        r == spec_decode_tpms(b@),
{
    if b.len() < 9 {
        return Err(FrameError::Truncated);
    }
    if crc8(&b[0..8], 0x07, 0x80) != b[8] {
        return Err(FrameError::Integrity);
    }
    let pressure1: u8 = ((b[4] & 0x7f) << 1) | (b[5] >> 7);
    let pressure2: u8 = b[7] ^ 0xff;
    if pressure1 != pressure2 {
        return Err(FrameError::Integrity);
    }
    let temp: u8 = ((b[5] & 0x7f) << 1) | (b[6] >> 7);
    Ok(ToyotaTpms {
        id: ((b[0] as u32) << 24) | ((b[1] as u32) << 16) | ((b[2] as u32) << 8) | (b[3] as u32),
        pressure_psi_x4: pressure1 as i16 - 28,
        temperature_c: temp as i16 - 40,
        status: (b[4] & 0x80) | (b[6] & 0x7f),
    })
}

/// The sync word (`spec_sync`).
fn sync() -> (r: Vec<u8>)
    ensures
        r@ == spec_sync(),
{
    let mut v: Vec<u8> = Vec::new();
    v.push(0xa9);
    v.push(0xe0);
    assert(v@ =~= spec_sync());
    v
}

/// The frame that follows a sync word at `pos`, if the 72 data bits after it
/// decode (differential Manchester, referenced to the half-bit before
/// `pos + 11`) into 9 valid bytes.
pub open spec fn tpms_candidate(bits: Seq<bool>, pos: int) -> Option<DecodedView> {
    let d = spec_dm_decode(bits, pos + 11, bits[pos + 10], 80);
    if d.1 - (pos + 11) >= 144 && d.0.len() >= 72 {
        let raw = spec_extract_bytes(d.0, 0, 9).unwrap();
        match spec_decode_tpms(raw) {
            Ok(p) => Some((Payload::ToyotaTpms(p), raw, pos as usize, false)),
            Err(_) => None,
        }
    } else {
        None
    }
}

/// Scan for sync words from bit `from` on, collecting new frames into `acc`
/// (a frame identical to one already found is not repeated). A sync word
/// too close to the end to hold a whole frame ends the scan; after a sync
/// word the scan resumes two bits later.
pub open spec fn spec_tpms_scan(bits: Seq<bool>, from: int, acc: Seq<DecodedView>) -> Seq<DecodedView>
    decreases bits.len() - from,
{
    if from < 0 || from + 12 > bits.len() {
        acc
    } else if !matches_at(bits, spec_sync(), 12, from) {
        spec_tpms_scan(bits, from + 1, acc)
    } else if from + 156 > bits.len() {
        acc
    } else {
        let acc2 = match tpms_candidate(bits, from) {
            Some(c) => if has_raw(acc, c.1) { acc } else { acc.push(c) },
            None => acc,
        };
        spec_tpms_scan(bits, from + 2, acc2)
    }
}

proof fn lemma_scan_skip(bits: Seq<bool>, from: int, to: int, acc: Seq<DecodedView>)
    requires
        0 <= from <= to,
        forall|o: int| from <= o < to ==> !matches_at(bits, spec_sync(), 12, o),
    ensures
        spec_tpms_scan(bits, from, acc) == spec_tpms_scan(bits, to, acc),
    decreases to - from,
{
    if from < to {
        lemma_scan_skip(bits, from + 1, to, acc);
    }
}

proof fn lemma_scan_none(bits: Seq<bool>, from: int, acc: Seq<DecodedView>)
    requires
        0 <= from,
        forall|o: int| from <= o ==> !matches_at(bits, spec_sync(), 12, o),
    ensures
        spec_tpms_scan(bits, from, acc) == acc,
    decreases bits.len() - from,
{
    if from + 12 <= bits.len() {
        lemma_scan_none(bits, from + 1, acc);
    }
}

/// `x` is a Toyota frame read at a sync word of `bits`: not inverted, at a
/// position where the sync word stands, with 9 bytes that decode to its
/// payload.
pub open spec fn tpms_frame_ok(bits: Seq<bool>, x: DecodedView) -> bool {
    &&& matches_at(bits, spec_sync(), 12, x.2 as int)
    &&& !x.3
    &&& x.1.len() == 9
    &&& match x.0 {
        Payload::ToyotaTpms(p) => spec_decode_tpms(x.1) == Ok::<ToyotaTpms, FrameError>(p),
        _ => false,
    }
}

proof fn lemma_scan_frames_ok(bits: Seq<bool>, from: int, acc: Seq<DecodedView>)
    requires
        bits.len() <= usize::MAX,
        forall|i: int| 0 <= i < acc.len() ==> tpms_frame_ok(bits, #[trigger] acc[i]),
    ensures
        forall|i: int| 0 <= i < spec_tpms_scan(bits, from, acc).len() ==> tpms_frame_ok(bits, #[trigger] spec_tpms_scan(bits, from, acc)[i]),
    decreases bits.len() - from,
{
    if from < 0 || from + 12 > bits.len() {
    } else if !matches_at(bits, spec_sync(), 12, from) {
        assert(spec_tpms_scan(bits, from, acc) == spec_tpms_scan(bits, from + 1, acc));
        lemma_scan_frames_ok(bits, from + 1, acc);
    } else if from + 156 > bits.len() {
    } else {
        let acc2 = match tpms_candidate(bits, from) {
            Some(c) => if has_raw(acc, c.1) { acc } else { acc.push(c) },
            None => acc,
        };
        match tpms_candidate(bits, from) {
            Some(c) => {
                assert(c.2 as int == from);
                assert(tpms_frame_ok(bits, c));
            },
            None => {},
        }
        assert forall|i: int| 0 <= i < acc2.len() implies tpms_frame_ok(bits, #[trigger] acc2[i]) by {
            if i < acc.len() {
                assert(acc2[i] == acc[i]);
            }
        }
        assert(spec_tpms_scan(bits, from, acc) == spec_tpms_scan(bits, from + 2, acc2));
        lemma_scan_frames_ok(bits, from + 2, acc2);
    }
}

/// Every frame the Toyota decoder returns stands at a sync word, is read
/// without inverting the bits, and has 9 bytes that decode to its payload.
pub proof fn lemma_tpms_frames_decode(bits: Seq<bool>)
    requires
        bits.len() <= usize::MAX,
    ensures
        forall|i: int|
            0 <= i < spec_tpms_scan(bits, 0, Seq::<DecodedView>::empty()).len() ==> tpms_frame_ok(
                bits,
                #[trigger] spec_tpms_scan(bits, 0, Seq::<DecodedView>::empty())[i],
            ),
{
    lemma_scan_frames_ok(bits, 0, Seq::<DecodedView>::empty());
}

/// Every frame in `bits`: sync word, then differential Manchester data.
pub fn decode_bits(bits: &[bool]) -> (r: Vec<Decoded>)
    ensures
        views(r@) == spec_tpms_scan(bits@, 0, Seq::<DecodedView>::empty()),
{
    let pattern = sync();
    let mut out: Vec<Decoded> = Vec::new();
    let mut from: usize = 0;
    assert(views(out@) =~= Seq::<DecodedView>::empty());
    loop
        invariant
            pattern@ == spec_sync(),
            from <= bits.len() + 2,
            spec_tpms_scan(bits@, from as int, views(out@)) == spec_tpms_scan(bits@, 0, Seq::<DecodedView>::empty()),
        decreases bits.len() + 2 - from,
    {
        let pos = match find_pattern(bits, &pattern, 12, from) {
            Some(p) => p,
            None => {
                proof {
                    lemma_scan_none(bits@, from as int, views(out@));
                }
                return out;
            },
        };
        proof {
            lemma_scan_skip(bits@, from as int, pos as int, views(out@));
        }
        if pos > bits.len() || bits.len() - pos < 156 {
            return out;
        }
        let ghost acc = views(out@);
        let (data, end) = differential_manchester_decode(bits, pos + 11, 80);
        if end >= pos + 11 + 144 && data.len() >= 72 {
            let raw = match extract_bytes(&data, 0, 9) {
                Some(v) => v,
                None => {
                    assert(false);
                    return out;
                },
            };
            match decode_frame(raw.as_slice()) {
                Ok(p) => {
                    if !contains_raw(&out, raw.as_slice()) {
                        out.push(Decoded { payload: Payload::ToyotaTpms(p), raw, bit_offset: pos, inverted: false });
                        assert(views(out@) =~= acc.push(out@.last()@));
                    }
                },
                Err(_) => {},
            }
        }
        from = pos + 2;
    }
}

/// Decoder for the Toyota TPMS family.
pub struct ToyotaTpmsDecoder;

impl super::Decoder for ToyotaTpmsDecoder {
    open spec fn kind(&self) -> super::DecoderKind {
        super::DecoderKind::ToyotaTpms
    }

    fn name(&self) -> (r: &'static str) {
        super::DecoderKind::ToyotaTpms.name()
    }

    fn modulation(&self) -> (r: super::Modulation) {
        super::DecoderKind::ToyotaTpms.modulation()
    }

    fn bands(&self) -> (r: Vec<super::Band>) {
        super::DecoderKind::ToyotaTpms.bands()
    }

    fn decode(&self, bits: &[bool]) -> (r: Vec<Decoded>) {
        super::DecoderKind::ToyotaTpms.decode(bits)
    }
}

} // verus!
