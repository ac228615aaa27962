use sensormon_core::dsp::hops::HopFramer;
use sensormon_core::dsp::regions::hot_regions;
use sensormon_core::dsp::ring::SampleRing;
use sensormon_core::units::SampleIndex;

/// One complex baseband sample.
#[derive(Clone, Copy, Debug, PartialEq)]
struct Iq {
    re: f32,
    im: f32,
}

#[test]
fn wraps_and_evicts() {
    let mut r = SampleRing::new(8, SampleIndex(100), Iq { re: 0.0, im: 0.0 });
    let blk: Vec<Iq> = (0..10).map(|i| Iq { re: i as f32, im: 0.0 }).collect();
    r.push(&blk[..5]);
    r.push(&blk[5..]);
    assert_eq!(r.next_index(), SampleIndex(110));
    assert_eq!(r.oldest_index(), SampleIndex(102));
    assert!(r.get(SampleIndex(100), SampleIndex(104)).is_none());
    let got = r.get(SampleIndex(102), SampleIndex(110)).unwrap();
    assert_eq!(got.iter().map(|s| s.re as i32).collect::<Vec<_>>(), (2..10).collect::<Vec<_>>());
}

#[test]
fn empty_ring_and_bounds() {
    let mut r = SampleRing::new(0, SampleIndex(5), 0u8);
    assert_eq!(r.capacity(), 1);
    assert_eq!(r.oldest_index(), SampleIndex(5));
    assert!(r.get(SampleIndex(5), SampleIndex(5)).is_none());
    assert!(r.get(SampleIndex(5), SampleIndex(6)).is_none());
    r.push(&[1, 2, 3]);
    assert_eq!(r.oldest_index(), SampleIndex(7));
    assert_eq!(r.get(SampleIndex(7), SampleIndex(8)), Some(vec![3]));
    assert!(r.get(SampleIndex(8), SampleIndex(7)).is_none());
}

#[test]
fn block_longer_than_capacity_keeps_its_tail() {
    let mut r = SampleRing::new(4, SampleIndex(0), 0u32);
    let blk: Vec<u32> = (0..11).collect();
    r.push(&blk);
    assert_eq!(r.next_index(), SampleIndex(11));
    assert_eq!(r.oldest_index(), SampleIndex(7));
    assert_eq!(r.get(SampleIndex(7), SampleIndex(11)), Some(vec![7, 8, 9, 10]));
}

#[test]
fn hot_bins_group_into_regions() {
    let h = |s: &str| s.chars().map(|c| c == '#').collect::<Vec<bool>>();
    let hot = h(".#..#....##");
    assert_eq!(hot_regions(&hot, 3), vec![(1, 4), (9, 10)]);
    assert_eq!(hot_regions(&hot, 2), vec![(1, 1), (4, 4), (9, 10)]);
    assert_eq!(hot_regions(&hot, 0), vec![(1, 1), (4, 4), (9, 9), (10, 10)]);
    assert_eq!(hot_regions(&hot, 100), vec![(1, 10)]);
    assert!(hot_regions(&h("....."), 3).is_empty());
    assert_eq!(hot_regions(&h("#"), 0), vec![(0, 0)]);
}

#[test]
fn stream_is_cut_into_whole_hops() {
    let mut f = HopFramer::new(4, SampleIndex(10));
    assert!(f.push(&[1u8, 2, 3]).is_empty());
    assert_eq!(f.pending_index(), SampleIndex(10));
    assert_eq!(f.push(&[4, 5, 6, 7, 8, 9, 10]), vec![vec![1, 2, 3, 4], vec![5, 6, 7, 8]]);
    assert_eq!(f.pending_index(), SampleIndex(18));
    assert_eq!(f.push(&[11, 12]), vec![vec![9, 10, 11, 12]]);
    assert_eq!(f.pending_index(), SampleIndex(22));
    assert!(f.push(&[]).is_empty());
}

#[test]
fn hops_do_not_depend_on_block_boundaries() {
    let stream: Vec<u16> = (0..23).collect();
    let mut whole = HopFramer::new(5, SampleIndex(0));
    let at_once = whole.push(&stream);
    for cut in [1usize, 3, 7, 11] {
        let mut f = HopFramer::new(5, SampleIndex(0));
        let mut hops = Vec::new();
        for block in stream.chunks(cut) {
            hops.extend(f.push(block));
        }
        assert_eq!(hops, at_once);
        assert_eq!(f.pending_index(), whole.pending_index());
    }
    assert_eq!(at_once.len(), 4);
    assert_eq!(whole.pending_index(), SampleIndex(20));
}
