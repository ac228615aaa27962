use sensormon_core::crc::{crc8, crc8_fineoffset, sum8, xor8};

#[test]
fn crc8_known_vector() {
    // CRC-8/NRSC-5 style check value: poly 0x31, init 0xff over "123456789" is 0xF7;
    // with init 0x00 the same message gives 0xA2 (computed with the same algorithm as rtl_433).
    assert_eq!(crc8(b"123456789", 0x31, 0xff), 0xf7);
    assert_eq!(crc8(b"123456789", 0x31, 0x00), 0xa2);
}

#[test]
fn sum_and_xor() {
    assert_eq!(sum8(&[0xff, 0x02]), 0x01);
    assert_eq!(xor8(&[0xf0, 0x0f, 0x01]), 0xfe);
}

#[test]
fn crc_of_frame_with_its_crc_is_zero() {
    let mut frame = b"sensormon".to_vec();
    let c = crc8_fineoffset(&frame);
    frame.push(c);
    assert_eq!(crc8_fineoffset(&frame), 0);
    let mut tpms = vec![0xd9, 0x61, 0x05, 0xf2, 0x4e, 0x20, 0x80, 0x63];
    let c = crc8(&tpms, 0x07, 0x80);
    tpms.push(c);
    assert_eq!(crc8(&tpms, 0x07, 0x80), 0);
    assert_eq!(crc8(&[], 0x31, 0x5a), 0x5a);
}

#[test]
fn xor_of_frame_with_its_xor_is_zero() {
    let mut b = vec![0x12, 0x34, 0x56];
    let x = xor8(&b);
    b.push(x);
    assert_eq!(xor8(&b), 0);
    assert_eq!(sum8(&[]), 0);
    assert_eq!(sum8(&[200, 100, 0x10]), 0x3c);
}
