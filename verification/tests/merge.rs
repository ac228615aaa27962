use sensormon_core::event::{Payload, ReceiverEvent, ReceiverId, Wh51};
use sensormon_core::merge::Merger;

/// The receiver's signal measurement, as the demodulator reports it.
#[derive(Clone, Copy, Debug, PartialEq)]
struct Signal {
    center_hz: f64,
    rssi_db: f32,
}

const MS: i128 = 1_000_000;
const SEC: i128 = 1_000_000_000;
const T0: i128 = 1_700_000_000 * SEC;

fn ev(rx: &str, t: i128, raw: &[u8]) -> ReceiverEvent<Signal> {
    let sig = Signal { center_hz: 915e6, rssi_db: -30.0 };
    ReceiverEvent {
        receiver: ReceiverId(rx.into()),
        time_ns: t,
        signal: sig,
        sensor: Payload::Wh51(Wh51 { id: 1, battery_mv: 1500, battery_pct: 90, moisture_pct: 30, boost: 0, ad_raw: 100 }),
        raw: raw.to_vec(),
    }
}

#[test]
fn merges_same_raw_within_window() {
    let mut m = Merger::new(2 * SEC);
    assert!(m.push(ev("a", T0, &[1, 2, 3]), T0).is_empty());
    assert!(m.push(ev("b", T0 + 300 * MS, &[1, 2, 3]), T0 + 300 * MS).is_empty());
    let out = m.flush(T0 + 3 * SEC);
    assert_eq!(out.len(), 1);
    assert_eq!(out[0].reception.heard_by.len(), 2);
    assert_eq!(out[0].reception.time_ns, T0);
}

#[test]
fn different_raw_are_separate() {
    let mut m = Merger::new(2 * SEC);
    m.push(ev("a", T0, &[1]), T0);
    m.push(ev("a", T0, &[2]), T0);
    assert_eq!(m.drain().len(), 2);
}

#[test]
fn same_receiver_twice_is_listed_once() {
    let mut m = Merger::new(2 * SEC);
    m.push(ev("a", T0, &[7, 7]), T0);
    let mut second = ev("a", T0 + MS, &[7, 7]);
    second.signal.rssi_db = -20.0;
    m.push(second, T0 + MS);
    m.push(ev("b", T0 + 2 * MS, &[7, 7]), T0 + 2 * MS);
    let out = m.drain();
    assert_eq!(out.len(), 1);
    let heard = &out[0].reception.heard_by;
    assert_eq!(heard.len(), 2);
    assert_eq!(heard[0].0, ReceiverId("a".into()));
    assert_eq!(heard[0].1.rssi_db, -20.0);
    assert_eq!(heard[1].0, ReceiverId("b".into()));
    assert_eq!(out[0].raw, vec![7, 7]);
}

#[test]
fn late_copy_starts_a_new_event_and_window_edge_is_open() {
    let mut m = Merger::new(2 * SEC);
    m.push(ev("a", T0, &[9]), T0);
    // exactly at the window's edge: still joins
    m.push(ev("b", T0 + 2 * SEC, &[9]), T0 + 2 * SEC);
    // past it: a new transmission; the first one closes now
    let out = m.push(ev("c", T0 + 2 * SEC + 1, &[9]), T0 + 2 * SEC + 1);
    assert_eq!(out.len(), 1);
    assert_eq!(out[0].reception.heard_by.len(), 2);
    // nothing else has closed yet
    assert!(m.flush(T0 + 4 * SEC).is_empty());
    let rest = m.flush(T0 + 4 * SEC + 2);
    assert_eq!(rest.len(), 1);
    assert_eq!(rest[0].reception.time_ns, T0 + 2 * SEC + 1);
    assert!(m.drain().is_empty());
}

#[test]
fn flush_keeps_order_of_first_arrival() {
    let mut m = Merger::new(SEC);
    m.push(ev("a", T0, &[1]), T0);
    m.push(ev("a", T0 + 10, &[2]), T0 + 10);
    m.push(ev("a", T0 + 20, &[3]), T0 + 20);
    let out = m.flush(T0 + 5 * SEC);
    let raws: Vec<Vec<u8>> = out.iter().map(|e| e.raw.clone()).collect();
    assert_eq!(raws, vec![vec![1], vec![2], vec![3]]);
}

#[test]
fn copies_from_three_receivers_are_one_event() {
    let mut m = Merger::new(2 * SEC);
    for (i, rx) in ["a", "b", "c"].iter().enumerate() {
        let t = T0 + i as i128 * 500 * MS;
        assert!(m.push(ev(rx, t, &[4, 2]), t).is_empty());
    }
    let out = m.flush(T0 + 5 * SEC);
    assert_eq!(out.len(), 1);
    let names: Vec<&str> = out[0].reception.heard_by.iter().map(|(r, _)| r.0.as_str()).collect();
    assert_eq!(names, vec!["a", "b", "c"]);
    assert_eq!(out[0].reception.time_ns, T0);
}

#[test]
fn heard_by_is_in_receiver_order() {
    let mut m = Merger::new(2 * SEC);
    for (i, rx) in ["tower", "garage", "attic", "Zed", "éclair"].iter().enumerate() {
        let t = T0 + i as i128 * MS;
        m.push(ev(rx, t, &[5]), t);
    }
    let out = m.drain();
    let names: Vec<&str> = out[0].reception.heard_by.iter().map(|(r, _)| r.0.as_str()).collect();
    let mut sorted = names.clone();
    sorted.sort();
    assert_eq!(names, sorted);
    assert_eq!(names, vec!["Zed", "attic", "garage", "tower", "éclair"]);
    assert_eq!(out[0].reception.time_ns, T0);
}

#[test]
fn receiver_order_is_byte_order() {
    let a = ReceiverId("ab".into());
    let b = ReceiverId("abc".into());
    let c = ReceiverId("b".into());
    assert!(a.precedes(&b) && b.precedes(&c) && a.precedes(&c));
    assert!(!a.precedes(&a) && !c.precedes(&a));
}
