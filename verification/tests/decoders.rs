use sensormon_core::bits::{inverted, to_bits};
use sensormon_core::crc::{crc8_fineoffset, sum8};
use sensormon_core::event::Payload;
use sensormon_core::protocol::{
    decode_all, decoders, decoders_for_center, decoders_for_rate, fineoffset, symbol_rates, toyota_tpms, Band, Decoder,
    DecoderKind, Modulation,
};

fn wh55_frame() -> Vec<u8> {
    let mut b = vec![0x55, 0x10, 0x5f, 0x13, 0x05, 0x01, 0x2c, 0x80];
    b.push(crc8_fineoffset(&b));
    b
}

fn wh51_frame() -> Vec<u8> {
    let mut b = vec![0x51, 0x0f, 0x3d, 0xb5, 18, 0x00, 27, 0, 158, 0, 0, 0];
    b.push(crc8_fineoffset(&b));
    b.push(sum8(&b));
    b
}

fn on_air(frame: &[u8]) -> Vec<bool> {
    let mut bytes = vec![0xaa, 0xaa, 0xaa, 0x2d, 0xd4];
    bytes.extend(frame);
    bytes.push(0x00);
    to_bits(&bytes)
}

#[test]
fn decoder_list_and_names() {
    let decs = decoders();
    assert_eq!(
        decs,
        vec![
            DecoderKind::Ws90,
            DecoderKind::Wh51,
            DecoderKind::Wh55,
            DecoderKind::Wh31l,
            DecoderKind::Wh25,
            DecoderKind::ToyotaTpms
        ]
    );
    assert_eq!(DecoderKind::Wh31l.name(), "FineOffset-WH31L");
    assert_eq!(DecoderKind::ToyotaTpms.name(), "Toyota-TPMS");
    assert_eq!(
        DecoderKind::Ws90.modulation(),
        Modulation::Fsk { symbol_rate_millihz: fineoffset::SYMBOL_RATE_MILLIHZ }
    );
    assert_eq!(DecoderKind::ToyotaTpms.symbol_rate_millihz(), toyota_tpms::SYMBOL_RATE_MILLIHZ);
}

#[test]
fn one_demod_pass_per_rate() {
    let decs = decoders();
    assert_eq!(symbol_rates(&decs), vec![17_240_000, 19_230_769]);
    assert_eq!(symbol_rates(&[]), Vec::<u64>::new());
    let slow = decoders_for_rate(&decs, 17_240_500);
    assert_eq!(slow.len(), 5);
    assert!(!slow.contains(&DecoderKind::ToyotaTpms));
    assert_eq!(decoders_for_rate(&decs, 19_230_000), vec![DecoderKind::ToyotaTpms]);
    assert!(decoders_for_rate(&decs, 18_000_000).is_empty());
}

#[test]
fn decoders_by_band() {
    let decs = [DecoderKind::Ws90, DecoderKind::Wh51, DecoderKind::Wh46, DecoderKind::ToyotaTpms];
    assert_eq!(
        decoders_for_center(&decs, 315_000_000),
        vec![DecoderKind::Ws90, DecoderKind::ToyotaTpms]
    );
    assert_eq!(decoders_for_center(&decs, 433_920_000), decs.to_vec());
    assert_eq!(
        decoders_for_center(&decs, 928_000_000),
        vec![DecoderKind::Ws90, DecoderKind::Wh51, DecoderKind::Wh46]
    );
    assert_eq!(decoders_for_center(&decs, 929_000_001), vec![DecoderKind::Ws90]);
    let band = Band { center_hz: 100, half_width_hz: 10 };
    assert!(band.contains(90) && band.contains(110) && !band.contains(111) && !band.contains(89));
    assert!(Band { center_hz: 5, half_width_hz: 10 }.contains(0));
    assert_eq!(DecoderKind::Wh25.bands(), vec![]);
    assert_eq!(DecoderKind::Wh55.bands().len(), 3);
}

#[test]
fn decode_all_finds_both_polarities_once() {
    let decs = decoders();
    let bits = on_air(&wh55_frame());
    let d = decode_all(&decs, &bits);
    assert_eq!(d.len(), 1);
    assert!(!d[0].inverted);
    assert_eq!(d[0].raw, wh55_frame());
    assert!(matches!(d[0].payload, Payload::Wh55(_)));
    let flipped = inverted(&bits);
    let d = decode_all(&decs, &flipped);
    assert_eq!(d.len(), 1);
    assert!(d[0].inverted);
    assert_eq!(d[0].bit_offset, 40);
}

#[test]
fn decode_all_keeps_repeats_apart_only_when_bytes_differ() {
    let decs = decoders();
    let mut bits = on_air(&wh51_frame());
    bits.extend(on_air(&wh51_frame()));
    bits.extend(on_air(&wh55_frame()));
    let d = decode_all(&decs, &bits);
    assert_eq!(d.len(), 2);
    assert!(matches!(d[0].payload, Payload::Wh51(_)));
    assert!(matches!(d[1].payload, Payload::Wh55(_)));
    // one decoder alone finds both repeats
    assert_eq!(DecoderKind::Wh51.decode(&bits).len(), 2);
    assert!(decode_all(&[], &bits).is_empty());
}

#[test]
fn a_band_runs_only_its_rates() {
    let decs = decoders();
    assert_eq!(symbol_rates(&decoders_for_center(&decs, 868_300_000)), vec![17_240_000]);
    assert_eq!(symbol_rates(&decoders_for_center(&decs, 315_000_000)), vec![17_240_000, 19_230_769]);
    assert_eq!(symbol_rates(&decoders_for_center(&[DecoderKind::ToyotaTpms], 915_000_000)), Vec::<u64>::new());
}

#[test]
fn straight_frames_come_first_then_inverted_ones() {
    let decs = decoders();
    let mut bits = inverted(&on_air(&wh51_frame()));
    bits.extend(on_air(&wh55_frame()));
    let d = decode_all(&decs, &bits);
    assert_eq!(d.len(), 2);
    assert!(!d[0].inverted && matches!(d[0].payload, Payload::Wh55(_)));
    assert!(d[1].inverted && matches!(d[1].payload, Payload::Wh51(_)));
}
