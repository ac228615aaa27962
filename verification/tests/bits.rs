use sensormon_core::bits::{bit_at, differential_manchester_decode, differential_manchester_encode, extract_bytes, find_pattern, inverted, to_bits};

#[test]
fn roundtrip_and_search() {
    let bytes = [0xaa, 0x2d, 0xd4, 0x51, 0x0f];
    let bits = to_bits(&bytes);
    assert_eq!(extract_bytes(&bits, 0, 5).unwrap(), bytes);
    assert_eq!(find_pattern(&bits, &[0x2d, 0xd4], 16, 0), Some(8));
    // unaligned: shift by 3 bits
    let mut shifted = vec![false, true, true];
    shifted.extend(&bits);
    assert_eq!(find_pattern(&shifted, &[0x2d, 0xd4], 16, 0), Some(11));
    assert_eq!(extract_bytes(&shifted, 11, 3).unwrap(), [0x2d, 0xd4, 0x51]);
    assert_eq!(extract_bytes(&bits, 30, 2), None);
}

#[test]
fn bit_at_is_msb_first() {
    assert!(bit_at(&[0x80], 0));
    assert!(!bit_at(&[0x80], 1));
    assert!(bit_at(&[0x00, 0x01], 15));
    assert_eq!(to_bits(&[0xa5]), vec![true, false, true, false, false, true, false, true]);
}

#[test]
fn find_pattern_edges() {
    let bits = to_bits(&[0xff, 0x00]);
    // zero-length pattern and a haystack shorter than the pattern find nothing
    assert_eq!(find_pattern(&bits, &[0xff], 0, 0), None);
    assert_eq!(find_pattern(&bits[..4], &[0xff], 8, 0), None);
    // the search starts at `from`: the later match is found
    let two = to_bits(&[0xf0, 0xf0]);
    assert_eq!(find_pattern(&two, &[0xf0], 4, 0), Some(0));
    assert_eq!(find_pattern(&two, &[0xf0], 4, 1), Some(8));
    assert_eq!(find_pattern(&two, &[0xf0], 4, 9), None);
}

#[test]
fn extract_bytes_bounds() {
    let bits = to_bits(&[0x12, 0x34]);
    assert_eq!(extract_bytes(&bits, 0, 2).unwrap(), vec![0x12, 0x34]);
    assert_eq!(extract_bytes(&bits, 4, 1).unwrap(), vec![0x23]);
    assert_eq!(extract_bytes(&bits, 9, 1), None);
    assert_eq!(extract_bytes(&bits, 17, 0), None);
    assert_eq!(extract_bytes(&bits, 16, 0).unwrap(), Vec::<u8>::new());
    assert_eq!(extract_bytes(&bits, usize::MAX, 3), None);
}

#[test]
fn inverted_twice_is_identity() {
    let bits = to_bits(&[0x5a, 0x0f]);
    let inv = inverted(&bits);
    assert_eq!(extract_bytes(&inv, 0, 2).unwrap(), vec![0xa5, 0xf0]);
    assert_eq!(inverted(&inv), bits);
}

#[test]
fn differential_manchester_roundtrip() {
    let data = to_bits(&[0xd9, 0x61]);
    for level in [false, true] {
        let mut line = vec![level];
        line.extend(differential_manchester_encode(&data, level));
        let (out, end) = differential_manchester_decode(&line, 1, data.len());
        assert_eq!(out, data);
        assert_eq!(end, 1 + 2 * data.len());
    }
    // every symbol has a mid-bit transition; a 1 starts with a transition
    assert_eq!(differential_manchester_encode(&[true, false], false), vec![true, false, false, true]);
    // no reference level at offset 0; a missing mid-bit transition stops decoding
    assert_eq!(differential_manchester_decode(&[true, false], 0, 8), (vec![], 0));
    assert_eq!(differential_manchester_decode(&[false, true, false, false, false], 1, 8), (vec![true], 3));
}

#[test]
fn packing_then_unpacking_gives_the_bits_back() {
    let bits: Vec<bool> = (0..24).map(|i| (i * 7 + i / 3) % 5 < 2).collect();
    let bytes = extract_bytes(&bits, 0, 3).unwrap();
    assert_eq!(to_bits(&bytes), bits);
    // a haystack shorter than the pattern holds no match, whatever the pattern's length
    assert_eq!(find_pattern(&bits[..4], &[], 16, 0), None);
}
