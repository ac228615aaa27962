use sensormon_core::bits::{differential_manchester_encode, to_bits};
use sensormon_core::crc::{crc8, crc8_fineoffset, sum8, xor8};
use sensormon_core::event::{LightningState, Payload, Wh25Variant};
use sensormon_core::protocol::toyota_tpms::ToyotaTpmsDecoder;
use sensormon_core::protocol::wh46::Wh46Decoder;
use sensormon_core::protocol::wh51::Wh51Decoder;
use sensormon_core::protocol::{toyota_tpms, wh25, wh31l, wh46, wh51, wh55, ws90};
use sensormon_core::protocol::{Decoder, FrameError};

fn ws90_frame(fill: impl FnOnce(&mut [u8; 32])) -> Vec<u8> {
    let mut b = [0u8; 32];
    b[0] = 0x90;
    fill(&mut b);
    b[30] = crc8_fineoffset(&b[..30]);
    b[31] = sum8(&b[..31]);
    b.to_vec()
}

#[test]
fn roundtrip_and_invalid_markers() {
    let f = ws90_frame(|b| {
        b[1..4].copy_from_slice(&[0x01, 0x0b, 0x9b]); // id 68507
        b[4..6].copy_from_slice(&[0x00, 0x2a]); // light 42*10 lux
        b[6] = 123; // 2460 mV
        b[7] = 0x01;
        b[8] = 0xe6; // temp raw 0x1e6 = 486 -> 8.6 C
        b[9] = 47;
        b[10] = 0;
        b[11] = 0xd9;
        b[12] = 3; // wind avg 0, dir 217, gust 0.3
        b[13] = 0xff; // uv invalid
        b[14] = 0x3f;
        b[15] = 0xff; // pressure invalid
        b[19] = 0x0b;
        b[20] = 0x0a; // rain 2826 -> 282.6 mm
        b[21] = 52; // supercap 5.2 V
        b[29] = 159;
    });
    let p = ws90::decode_frame(&f).unwrap();
    assert_eq!(p.id, 68507);
    assert_eq!(p.battery_mv, 2460);
    assert_eq!(p.battery_pct as f32 / 100.0, 0.66);
    assert!((p.temperature_c_x10.unwrap() as f32 * 0.1 - 8.6).abs() < 1e-4);
    assert_eq!(p.humidity_pct, Some(47));
    assert_eq!(p.wind_dir_deg, Some(217));
    assert_eq!(p.uv_index_x10, None);
    assert_eq!(p.pressure_hpa, None);
    assert!((p.rain_total_mm_x10 as f32 * 0.1 - 282.6).abs() < 1e-3);
    assert!((p.supercap_v_x10.unwrap() as f32 * 0.1 - 5.2).abs() < 1e-4);
    assert_eq!(p.firmware, 159);
    let mut bad = f.clone();
    bad[9] ^= 0x10;
    assert_eq!(ws90::decode_frame(&bad), Err(FrameError::Integrity));
}

#[test]
fn ws90_light_wind_and_family() {
    let f = ws90_frame(|b| {
        b[4..6].copy_from_slice(&[0x00, 0x2a]);
        b[7] = 0x70 | 0x03;
        b[8] = 0xff; // temperature marker 0x3ff: not available
        b[10] = 0xff;
        b[11] = 0xff;
        b[12] = 0xff; // the high bits in byte 7 make all three 0x1ff
        b[21] = 0x3f; // supercap not available
    });
    let p = ws90::decode_frame(&f).unwrap();
    assert_eq!(p.light_lux, Some(420));
    assert_eq!(p.temperature_c_x10, None);
    assert_eq!(p.wind_avg_m_s_x10, None);
    assert_eq!(p.wind_dir_deg, None);
    assert_eq!(p.wind_max_m_s_x10, None);
    assert_eq!(p.supercap_v_x10, None);
    assert_eq!(p.battery_pct, 0);
    let mut other = f.clone();
    other[0] = 0x91;
    assert_eq!(ws90::decode_frame(&other), Err(FrameError::WrongFamily));
    assert_eq!(ws90::decode_frame(&f[..31]), Err(FrameError::Truncated));
}

/// Build a valid WH51 frame from fields, the way the sensor firmware would.
fn wh51_frame(id: u32, battery_bits: u8, boost: u8, moisture: u8, ad_raw: u16) -> Vec<u8> {
    let mut b = vec![
        0x51,
        (id >> 16) as u8,
        (id >> 8) as u8,
        id as u8,
        (boost << 5) | battery_bits,
        0x00,
        moisture,
        (ad_raw >> 8) as u8 & 1,
        ad_raw as u8,
        0,
        0,
        0,
    ];
    b.push(crc8_fineoffset(&b));
    b.push(sum8(&b));
    b
}

#[test]
fn wh51_roundtrip() {
    let f = wh51_frame(0x0f3db5, 18, 0, 27, 158);
    let p = wh51::decode_frame(&f).unwrap();
    assert_eq!(p.id, 0x0f3db5);
    assert_eq!(p.moisture_pct, 27);
    assert_eq!(p.battery_mv, 1800);
    assert_eq!(p.battery_pct as f32 / 100.0, 1.0);
    assert_eq!(p.ad_raw, 158);
    let mut bad = f.clone();
    bad[6] ^= 1;
    assert_eq!(wh51::decode_frame(&bad), Err(FrameError::Integrity));
    assert_eq!(wh51::decode_frame(&f[..10]), Err(FrameError::Truncated));
}

#[test]
fn wh51_decodes_from_bits_with_preamble() {
    let f = wh51_frame(0x0f423f, 15, 1, 40, 300);
    let mut bytes = vec![0xaa, 0xaa, 0xaa, 0x2d, 0xd4];
    bytes.extend(&f);
    let bits = to_bits(&bytes);
    let d = Wh51Decoder.decode(&bits);
    assert_eq!(d.len(), 1);
    assert_eq!(d[0].raw, f);
    match &d[0].payload {
        Payload::Wh51(p) => assert_eq!((p.id, p.battery_pct as f32 / 100.0, p.boost), (0x0f423f, 0.9, 1)),
        _ => panic!(),
    }
}

#[test]
fn wh51_battery_steps() {
    let pct = |bits: u8| wh51::decode_frame(&wh51_frame(1, bits, 0, 0, 0)).unwrap().battery_pct;
    assert_eq!((pct(12), pct(13), pct(14), pct(15), pct(16), pct(31)), (0, 10, 50, 90, 100, 100));
}

#[test]
fn wh55_roundtrip() {
    let mut b = vec![0x55, 0x10, 0x5f, 0x13, 0x05, 0x01, 0x2c, 0x80];
    b.push(crc8_fineoffset(&b));
    let p = wh55::decode_frame(&b).unwrap();
    assert_eq!((p.id, p.channel, p.raw_value), (0x5f13, 2, 300));
    assert!((p.battery_fifths as f32 / 5.0 - 1.0).abs() < 1e-6);
    assert!(p.high_sensitivity && !p.alarm);
}

#[test]
fn wh31l_roundtrip() {
    // state=4 (noise), id 0xd123
    let mut b = vec![0x57, 0x40, 0xd1, 0x23, 0x02, 0xbf, 20];
    b.push(crc8_fineoffset(&b));
    b.push(sum8(&b));
    let p = wh31l::decode_frame(&b).unwrap();
    assert_eq!(p.id, 0x00d123);
    assert_eq!(p.state, LightningState::Noise);
    assert_eq!(p.battery_halves as f32 / 2.0, 0.5);
    assert_eq!(p.storm_dist_km, None);
    assert_eq!(p.strike_count, 20);
}

#[test]
fn wh31l_states_and_distance() {
    let frame = |state: u8, dist: u8| {
        let mut b = vec![0x57, state << 4, 0x01, 0x02, 0x04, dist, 3];
        b.push(crc8_fineoffset(&b));
        b.push(sum8(&b));
        wh31l::decode_frame(&b).unwrap()
    };
    assert_eq!(frame(8, 12).state, LightningState::Strike);
    assert_eq!(frame(8, 12).storm_dist_km, Some(12));
    assert_eq!(frame(0, 1).state, LightningState::Reset);
    assert_eq!(frame(1, 1).state, LightningState::Interference);
    assert_eq!(frame(3, 1).state, LightningState::Unknown(3));
    assert_eq!(frame(8, 12).battery_halves, 2);
}

#[test]
fn roundtrip_wh25() {
    // id 0x5a; temp raw 0x1f4=500 -> 10.0 C; hum 55; pressure 10132 -> 1013.2
    let mut b = vec![0xe5, 0xa1, 0xf4, 55, 0x27, 0x94];
    b.push(sum8(&b));
    let x = xor8(&b[..6]);
    b.push(x.rotate_right(4));
    let p = wh25::decode_frame(&b, 480).unwrap();
    assert_eq!(p.id, 0x5a);
    assert!((p.temperature_c_x10.unwrap() as f32 * 0.1 - 10.0).abs() < 1e-4);
    assert_eq!(p.humidity_pct, 55);
    assert!((p.pressure_hpa_x10.unwrap() as f32 * 0.1 - 1013.2).abs() < 1e-3);
    assert!(p.battery_ok);
    assert_eq!(p.variant, Wh25Variant::Wh25);
}

#[test]
fn wh25_variants_and_checks() {
    let mut b = vec![0xe5, 0xa1, 0xf4, 55, 0x27, 0x94];
    b.push(sum8(&b));
    b.push(0); // wrong xor byte: only a WH32B (long burst) skips that check
    assert_eq!(wh25::decode_frame(&b, 480), Err(FrameError::Integrity));
    assert_eq!(wh25::decode_frame(&b, 600).unwrap().variant, Wh25Variant::Wh32b);
    let mut d = vec![0xd5, 0xa1, 0xf4, 55, 0xff, 0xff];
    d.push(sum8(&d));
    d.push(0);
    assert_eq!(wh25::decode_frame(&d, 480), Err(FrameError::WrongFamily));
    let p = wh25::decode_frame(&d, 170).unwrap();
    assert_eq!(p.variant, Wh25Variant::Wh32);
    assert_eq!(p.pressure_hpa_x10, None);
    assert_eq!(wh25::decode_frame(&d[..7], 170), Err(FrameError::Truncated));
}

/// The example frame from rtl_433's `fineoffset_wh46.c` header, integrity bytes included.
const RTL433_SAMPLE: [u8; 21] = [
    0x46, 0x00, 0x27, 0xf1, 0x02, 0xb5, 0x33, 0x40, 0x32, 0x40, 0x39, 0x03, 0x0b, 0x00, 0x2a, 0x00, 0x36, 0x01, 0x90,
    0xe4, 0x16,
];

#[test]
fn decodes_rtl433_sample_frame() {
    let p = wh46::decode_frame(&RTL433_SAMPLE).unwrap();
    assert_eq!(p.id, 0x0027f1);
    assert!((p.temperature_c_x10 as f32 * 0.1 - 29.3).abs() < 1e-4);
    assert_eq!(p.humidity_pct, 51);
    assert_eq!(p.battery_bars, 5);
    assert!(!p.external_power);
    assert!((p.battery_fifths as f32 / 5.0 - 1.0).abs() < 1e-6);
    assert!((p.pm2_5_ug_m3_x10 as f32 * 0.1 - 5.0).abs() < 1e-4);
    assert!((p.pm10_ug_m3_x10 as f32 * 0.1 - 5.7).abs() < 1e-4);
    assert_eq!(p.co2_ppm, 779);
    assert!((p.pm1_ug_m3_x10 as f32 * 0.1 - 4.2).abs() < 1e-4);
    assert!((p.pm4_ug_m3_x10 as f32 * 0.1 - 5.4).abs() < 1e-4);
    assert_eq!(p.unknown, 0x0190);
    let mut bad = RTL433_SAMPLE;
    bad[12] ^= 1;
    assert_eq!(wh46::decode_frame(&bad), Err(FrameError::Integrity));
    assert_eq!(wh46::decode_frame(&RTL433_SAMPLE[..20]), Err(FrameError::Truncated));
    let mut other = RTL433_SAMPLE;
    other[0] = 0x45;
    assert_eq!(wh46::decode_frame(&other), Err(FrameError::WrongFamily));
}

/// Build a valid WH46 frame from fields, the way the sensor firmware would.
fn wh46_frame(id: u32, bars: u8, temp_c: f32, hum: u8, co2: u16, pm: [f32; 4]) -> Vec<u8> {
    let temp_raw = (temp_c * 10.0 + 400.0).round() as u16;
    let raw = |v: f32| (v * 10.0).round() as u16;
    let [pm1, pm25, pm4, pm10] = pm.map(raw);
    let mut b = vec![
        0x46,
        (id >> 16) as u8,
        (id >> 8) as u8,
        id as u8,
        (temp_raw >> 8) as u8 & 0x07,
        temp_raw as u8,
        hum,
        ((bars & 0x04) << 4) | (pm25 >> 8) as u8,
        pm25 as u8,
        ((bars & 0x03) << 6) | (pm10 >> 8) as u8,
        pm10 as u8,
        (co2 >> 8) as u8,
        co2 as u8,
        (pm1 >> 8) as u8,
        pm1 as u8,
        (pm4 >> 8) as u8,
        pm4 as u8,
        0x01,
        0x90,
    ];
    b.push(crc8_fineoffset(&b));
    b.push(sum8(&b));
    b
}

#[test]
fn external_power_and_negative_temperature() {
    let f = wh46_frame(0x0038e9, 6, -5.0, 30, 1450, [1.0, 2.5, 40.0, 50.0]);
    let p = wh46::decode_frame(&f).unwrap();
    assert_eq!(p.id, 0x0038e9);
    assert!(p.external_power);
    assert_eq!(p.battery_bars, 6);
    assert!((p.battery_fifths as f32 / 5.0 - 1.0).abs() < 1e-6);
    assert!((p.temperature_c_x10 as f32 * 0.1 + 5.0).abs() < 1e-4);
    assert_eq!(p.co2_ppm, 1450);
    assert!((p.pm4_ug_m3_x10 as f32 * 0.1 - 40.0).abs() < 1e-4);
    assert!((p.pm10_ug_m3_x10 as f32 * 0.1 - 50.0).abs() < 1e-4);
    let low = wh46::decode_frame(&wh46_frame(1, 1, 20.0, 50, 400, [0.0; 4])).unwrap();
    assert_eq!(low.battery_bars, 1);
    assert!((low.battery_fifths as f32 / 5.0 - 0.2).abs() < 1e-6);
}

#[test]
fn wh46_decodes_from_bits_with_preamble() {
    let mut bytes = vec![0xaa, 0xaa, 0xaa, 0x2d, 0xd4];
    bytes.extend(&RTL433_SAMPLE);
    let bits = to_bits(&bytes);
    let d = Wh46Decoder.decode(&bits);
    assert_eq!(d.len(), 1);
    assert_eq!(d[0].raw, RTL433_SAMPLE);
    match &d[0].payload {
        Payload::Wh46(p) => assert_eq!((p.id, p.co2_ppm), (0x0027f1, 779)),
        _ => panic!(),
    }
}

fn tpms_frame(id: u32, pressure_raw: u8, temp_raw: u8, status: u8) -> Vec<u8> {
    let mut b = vec![(id >> 24) as u8, (id >> 16) as u8, (id >> 8) as u8, id as u8];
    b.push((status & 0x80) | (pressure_raw >> 1));
    b.push(((pressure_raw & 1) << 7) | (temp_raw >> 1));
    b.push(((temp_raw & 1) << 7) | (status & 0x7f));
    b.push(!pressure_raw);
    b.push(crc8(&b, 0x07, 0x80));
    b
}

#[test]
fn roundtrip_through_sync_and_differential_manchester() {
    let f = tpms_frame(0xd96105f2, 156, 65, 0x00); // 32 psi, 25 C
    let p = toyota_tpms::decode_frame(&f).unwrap();
    assert_eq!(p.id, 0xd96105f2);
    assert!((p.pressure_psi_x4 as f32 / 4.0 - 32.0).abs() < 1e-4);
    assert!((p.temperature_c as f32 - 25.0).abs() < 1e-4);
    // on-air: sync 0101 0101 0011 11, then DM-coded data starting from the sync's last transition
    let mut raw = to_bits(&[0x55, 0x3c]);
    raw.truncate(14);
    let level = *raw.last().unwrap();
    raw.extend(differential_manchester_encode(&to_bits(&f), level));
    raw.extend([false, true, false]); // trailer
    let d = ToyotaTpmsDecoder.decode(&raw);
    assert_eq!(d.len(), 1, "{raw:?}");
    assert_eq!(d[0].raw, f);
    let mut bad = f.clone();
    bad[2] ^= 1;
    assert_eq!(toyota_tpms::decode_frame(&bad), Err(FrameError::Integrity));
}

#[test]
fn tpms_pressure_copy_must_match() {
    let mut f = tpms_frame(1, 100, 60, 0x85);
    let p = toyota_tpms::decode_frame(&f).unwrap();
    assert_eq!((p.pressure_psi_x4, p.temperature_c, p.status), (72, 20, 0x85));
    f[7] ^= 0x01;
    f[8] = crc8(&f[..8], 0x07, 0x80);
    assert_eq!(toyota_tpms::decode_frame(&f), Err(FrameError::Integrity));
    assert_eq!(toyota_tpms::decode_frame(&f[..8]), Err(FrameError::Truncated));
}
