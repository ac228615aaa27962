use sensormon_core::bits::to_bits;
use sensormon_core::protocol::fineoffset::{frame_bytes, frame_starts};

#[test]
fn finds_sync_at_any_alignment() {
    let mut bits = vec![true, false, true, false, true];
    bits.extend(to_bits(&[0xaa, 0xaa, 0x2d, 0xd4, 0x51, 0x00]));
    let starts = frame_starts(&bits);
    assert_eq!(starts.len(), 1);
    assert_eq!(frame_bytes(&bits, starts[0], 1).unwrap(), [0x51]);
}

#[test]
fn finds_every_repeat() {
    let bits = to_bits(&[0xaa, 0x2d, 0xd4, 0x51, 0xaa, 0x2d, 0xd4, 0x55]);
    let starts = frame_starts(&bits);
    assert_eq!(starts, vec![24, 56]);
    assert_eq!(frame_bytes(&bits, starts[1], 1).unwrap(), [0x55]);
    assert_eq!(frame_bytes(&bits, starts[1], 2), None);
    assert!(frame_starts(&to_bits(&[0x2d, 0xd4])).is_empty());
}
