use sensormon_core::chirps::{beyond_newest, evict_for_cap, push_recent, RECENT_SIGHTINGS};
use sensormon_core::runtime::FamilyAdmission;

const SEC: u64 = 1_000_000_000;

#[test]
fn recent_sightings_keep_the_newest_eight() {
    let mut times: Vec<f64> = Vec::new();
    for i in 0..10 {
        push_recent(&mut times, i as f64);
    }
    assert_eq!(times.len(), RECENT_SIGHTINGS);
    assert_eq!(times, vec![2.0, 3.0, 4.0, 5.0, 6.0, 7.0, 8.0, 9.0]);
    let mut one = vec![1u8];
    push_recent(&mut one, 2);
    assert_eq!(one, vec![1, 2]);
}

#[test]
fn group_cap_drops_all_but_the_newest() {
    let rows = [(9, 100), (7, 50), (4, 30), (2, 20)];
    assert_eq!(beyond_newest(&rows, 2), (vec![4, 2], 50));
    assert_eq!(beyond_newest(&rows, 4), (vec![], 0));
    assert_eq!(beyond_newest(&rows, 10), (vec![], 0));
    assert_eq!(beyond_newest(&rows, 0), (vec![9, 7, 4, 2], 200));
    assert_eq!(beyond_newest(&rows, -3), (vec![9, 7, 4, 2], 200));
    assert_eq!(beyond_newest(&[], 6), (vec![], 0));
}

#[test]
fn global_cap_evicts_oldest_first() {
    let rows = [(1, 40), (2, 40), (3, 40)];
    assert_eq!(evict_for_cap(120, 100, &rows), (vec![1], 80));
    assert_eq!(evict_for_cap(120, 40, &rows), (vec![1, 2], 40));
    assert_eq!(evict_for_cap(120, 120, &rows), (vec![], 120));
    // the cap cannot be met: everything goes
    assert_eq!(evict_for_cap(200, 10, &rows), (vec![1, 2, 3], 80));
    assert_eq!(evict_for_cap(5, 0, &[]), (vec![], 5));
}

#[test]
fn family_admission_spaces_examples() {
    let mut a = FamilyAdmission::new(10 * SEC, 0);
    assert!(a.accept("hopper".into(), SEC));
    assert!(!a.accept("hopper".into(), 5 * SEC));
    assert!(a.accept("other".into(), 5 * SEC));
    assert!(!a.accept("hopper".into(), 11 * SEC - 1));
    assert!(a.accept("hopper".into(), 11 * SEC));
    // after a sweep (more than 600 s later) stale families are forgotten,
    // which changes nothing for admission: they are long past the interval
    assert!(a.accept("third".into(), 700 * SEC));
    assert!(a.accept("hopper".into(), 701 * SEC));
    assert!(!a.accept("third".into(), 705 * SEC));
}

#[test]
fn zero_interval_admits_everything() {
    let mut a = FamilyAdmission::new(0, 0);
    for t in 0..5 {
        assert!(a.accept("x".into(), t));
    }
}
