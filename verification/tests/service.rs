use sensormon_core::config::{
    default_examples, default_family_examples, default_max_bands, default_max_bytes, default_true, validate_receivers,
    AirspyGain, ConfigError, HttpConfig, MergeConfig, ReceiverShape,
};
use sensormon_core::event::{Payload, ToyotaTpms, Wh55};
use sensormon_core::iqfile::Format;
use sensormon_core::runtime::{
    BandScheduler, BlockAction, BurstOutcome, PipelineStats, PipelineStatsJson, StallWatch, Stalled, STALL_TIMEOUT_SECS,
};
use sensormon_core::sdr::airspy::{GainError, GainPlan};
use sensormon_core::sdr::rtlsdr::{HopAction, HopSchedule};
use sensormon_core::source::DropAccount;
use sensormon_core::totals::ReceiverTotals;
use sensormon_core::units::SampleIndex;

fn rx(name: &str, has_center: bool, hop_count: usize, is_rtlsdr: bool) -> ReceiverShape {
    ReceiverShape { name: name.into(), has_center, hop_count, is_rtlsdr }
}

#[test]
fn config_defaults() {
    assert_eq!(default_max_bands(), 8);
    assert!(default_true());
    assert_eq!(default_family_examples(), 50);
    assert_eq!(default_max_bytes(), 50_000_000);
    assert_eq!(default_examples(), 6);
    assert_eq!(MergeConfig::default().window_ms, 2000);
    assert_eq!(HttpConfig::default().bind, "0.0.0.0:8433");
}

#[test]
fn receiver_checks_report_the_first_problem() {
    assert_eq!(validate_receivers(&[]), Err(ConfigError::NoReceivers));
    assert_eq!(validate_receivers(&[rx("a", true, 0, false), rx("b", false, 3, true)]), Ok(()));
    assert_eq!(
        validate_receivers(&[rx("a", true, 0, false), rx("b", false, 0, true), rx("c", true, 2, false)]),
        Err(ConfigError::NoCenter("b".into()))
    );
    assert_eq!(
        validate_receivers(&[rx("c", true, 2, false), rx("b", false, 0, true)]),
        Err(ConfigError::HoppingUnsupported("c".into()))
    );
    // a single-entry hop list is no hopping
    assert_eq!(validate_receivers(&[rx("d", false, 1, false)]), Ok(()));
    assert_eq!(rx("e", true, 4, true).center_count(), 4);
    assert_eq!(rx("e", true, 0, true).center_count(), 1);
}

#[test]
fn airspy_gain_plans() {
    assert_eq!(
        AirspyGain::Stages { lna: 20, mix: 5, vga: 15 }.plan(),
        Ok(GainPlan::Stages { lna: 15, mix: 5, vga: 15 })
    );
    assert_eq!(AirspyGain::Preset { linearity: Some(30), sensitivity: Some(3) }.plan(), Ok(GainPlan::Linearity(21)));
    assert_eq!(AirspyGain::Preset { linearity: None, sensitivity: Some(7) }.plan(), Ok(GainPlan::Sensitivity(7)));
    assert_eq!(AirspyGain::Preset { linearity: None, sensitivity: None }.plan(), Err(GainError::Unspecified));
}

#[test]
fn health_lists_stalled_receivers() {
    let mut s = Stalled::new();
    assert_eq!(s.health(), (200, "ok\n".to_string()));
    s.receivers.push("roof".into());
    assert_eq!(s.health(), (503, "stalled: roof; unavailable: \n".to_string()));
    s.receivers.push("garage".into());
    assert_eq!(s.health(), (503, "stalled: roof, garage; unavailable: \n".to_string()));
    s.unavailable.push("attic".into());
    assert_eq!(s.health(), (503, "stalled: roof, garage; unavailable: attic\n".to_string()));
    let mut only_closed = Stalled::new();
    only_closed.unavailable.push("attic".into());
    assert_eq!(only_closed.health(), (503, "stalled: ; unavailable: attic\n".to_string()));
    assert_eq!(STALL_TIMEOUT_SECS, 15);
}

#[test]
fn stats_add_counts_only() {
    let mut a = PipelineStats::default();
    a.ns_demod = 7;
    let b = PipelineStats {
        samples: 10,
        bursts: 2,
        bursts_lost_from_ring: 1,
        demodulated: 2,
        decoded_frames: 1,
        ns_detect: 5,
        ns_extract: 5,
        ns_demod: 5,
        ns_decode: 5,
    };
    a.add_counts(&b);
    a.add_counts(&b);
    assert_eq!((a.samples, a.bursts, a.bursts_lost_from_ring, a.demodulated, a.decoded_frames), (20, 4, 2, 4, 2));
    assert_eq!((a.ns_detect, a.ns_extract, a.ns_demod, a.ns_decode), (0, 0, 7, 0));
    let j = PipelineStatsJson::from_stats(a);
    assert_eq!(j, PipelineStatsJson { bursts: 4, demodulated: 4, decoded_frames: 2, bursts_lost_from_ring: 2 });
}

fn process(key: u64, evict: Option<u64>, create: bool, skip: u64, reanchor: bool) -> BlockAction {
    BlockAction::Process { key, evict, create, skip, reanchor }
}

#[test]
fn scheduler_settles_after_each_retune() {
    let mut s = BandScheduler::new(100, 2);
    assert_eq!(s.on_block(0, 1, 60), BlockAction::Settle);
    assert_eq!(s.on_block(0, 1, 60), BlockAction::Settle);
    assert_eq!(s.on_block(0, 1, 50), process(1, None, true, 0, true));
    assert_eq!(s.on_block(5, 1, 50), process(1, None, false, 5, false));
    assert_eq!(s.global(), 225);
    assert_eq!(s.blocks(), 2);
    // retune: settle again, then band 2 joins
    assert_eq!(s.on_block(0, 2, 100), BlockAction::Settle);
    assert_eq!(s.on_block(0, 2, 10), process(2, None, true, 0, false));
    // back to band 1: it missed the 110 samples spent on band 2 and the settle block
    assert_eq!(s.on_block(0, 1, 100), BlockAction::Settle);
    assert_eq!(s.on_block(0, 1, 10), process(1, None, false, 210, false));
    assert_eq!(s.resident_bands(), vec![2, 1]);
    // a third band evicts the least recently used one
    assert_eq!(s.on_block(0, 3, 100), BlockAction::Settle);
    assert_eq!(s.on_block(0, 3, 10), process(3, Some(2), true, 0, false));
    assert_eq!(s.resident_bands(), vec![1, 3]);
}

#[test]
fn scheduler_without_settle_reanchors_every_64_blocks() {
    let mut s = BandScheduler::new(0, 0);
    let mut reanchors = 0;
    for _ in 0..130 {
        match s.on_block(0, 9, 1) {
            BlockAction::Process { reanchor, skip, .. } => {
                assert_eq!(skip, 0);
                if reanchor {
                    reanchors += 1;
                }
            }
            BlockAction::Settle => panic!("no settle window configured"),
        }
    }
    assert_eq!(reanchors, 3);
    assert_eq!(s.blocks(), 130);
    assert_eq!(s.on_block(0, 8, 1), process(8, Some(9), true, 0, false));
}

#[test]
fn drop_account_reports_losses_once() {
    let mut d = DropAccount::new();
    assert_eq!(d.dropped_before(3), 3);
    d.record(false, 3, 100);
    d.record(false, 0, 50);
    assert_eq!(d.dropped_before(7), 160);
    d.record(true, 7, 10);
    assert_eq!(d.dropped_before(0), 0);
}

#[test]
fn iq_formats_and_sample_index() {
    assert_eq!(Format::Cu8.bytes_per_sample(), 2);
    assert_eq!(Format::Cs16.bytes_per_sample(), 4);
    assert_eq!(Format::Cs16.samples_in(4099), 1024);
    assert_eq!(Format::Cu8.samples_in(7), 3);
    assert_eq!(SampleIndex(10).offset(-4), SampleIndex(6));
    assert_eq!(SampleIndex(10).offset(-40), SampleIndex(0));
    assert_eq!(SampleIndex(10).offset(5), SampleIndex(15));
    assert_eq!(SampleIndex(10).distance_to(SampleIndex(25)), 15);
    assert_eq!(SampleIndex(25).distance_to(SampleIndex(10)), 0);
}

#[test]
fn payload_model_and_id() {
    let w = Payload::Wh55(Wh55 { id: 0x5f13, channel: 2, battery_fifths: 5, raw_value: 300, high_sensitivity: true, alarm: false });
    assert_eq!(w.model(), "Fineoffset-WH55");
    assert_eq!(w.sensor_id(), 0x5f13);
    let t = Payload::ToyotaTpms(ToyotaTpms { id: 0xd96105f2, pressure_psi_x4: 128, temperature_c: 25, status: 0 });
    assert_eq!(t.model(), "Toyota-TPMS");
    assert_eq!(t.sensor_id(), 0xd96105f2);
}

#[test]
fn watchdog_flags_counters_that_stand_still() {
    const SEC: u64 = 1_000_000_000;
    let c = |a: u64, b: u64| vec![("roof".to_string(), a), ("garage".to_string(), b)];
    let none: Vec<String> = Vec::new();
    let mut w = StallWatch::new();
    assert!(w.observe(&c(1, 1), &none, 0).receivers.is_empty());
    assert!(w.observe(&c(2, 1), &none, 10 * SEC).receivers.is_empty());
    assert!(w.observe(&c(3, 1), &none, 15 * SEC - 1).receivers.is_empty());
    let s = w.observe(&c(3, 1), &none, 15 * SEC);
    assert_eq!(s.receivers, vec!["garage".to_string()]);
    assert_eq!(s.health(), (503, "stalled: garage; unavailable: \n".to_string()));
    let s = w.observe(&c(3, 2), &none, 30 * SEC);
    assert_eq!(s.receivers, vec!["roof".to_string()]);
    // a receiver seen for the first time starts its clock now
    let s = w.observe(&[("roof".to_string(), 4), ("attic".to_string(), 0)], &vec!["cellar".to_string()], 31 * SEC);
    assert!(s.receivers.is_empty());
    assert_eq!(s.unavailable, vec!["cellar".to_string()]);
    assert_eq!(s.health().0, 503);
}

#[test]
fn hop_schedule_cycles_after_each_dwell() {
    const SEC: u64 = 1_000_000_000;
    let mut h = HopSchedule::new(vec![315_000_000, 433_920_000, 915_000_000], 15 * SEC, 0);
    assert_eq!(h.current(), 315_000_000);
    assert_eq!(h.on_tick(15 * SEC - 1), HopAction::Wait);
    assert_eq!(h.on_tick(15 * SEC), HopAction::Retune(433_920_000));
    assert_eq!(h.on_retuned(true), Some(433_920_000));
    assert_eq!(h.on_tick(20 * SEC), HopAction::Wait);
    assert_eq!(h.on_tick(30 * SEC), HopAction::Retune(915_000_000));
    // a failed retune publishes nothing, and the schedule moves on regardless
    assert_eq!(h.on_retuned(false), None);
    assert_eq!(h.on_tick(45 * SEC), HopAction::Retune(315_000_000));
    assert_eq!(h.current(), 315_000_000);
    let mut single = HopSchedule::new(vec![868_300_000], 0, 0);
    assert_eq!(single.on_tick(100 * SEC), HopAction::Wait);
}

fn stats(samples: u64, bursts: u64, frames: u64) -> PipelineStats {
    PipelineStats { samples, bursts, decoded_frames: frames, ns_detect: 9, ..PipelineStats::default() }
}

#[test]
fn receiver_totals_fold_evicted_bands_and_never_decrease() {
    let mut t = ReceiverTotals::new();
    assert_eq!(t.total(), PipelineStats::default());
    assert!(t.update(1, stats(100, 2, 1)));
    assert!(t.update(2, stats(50, 1, 0)));
    assert_eq!(t.total(), PipelineStats { samples: 150, bursts: 3, decoded_frames: 1, ..PipelineStats::default() });
    // band 1 advances: its latest counters replace the earlier ones
    assert!(t.update(1, stats(300, 5, 2)));
    assert_eq!(t.total().samples, 350);
    assert_eq!(t.total().bursts, 6);
    // evicting band 1 keeps its counters in the totals
    t.evict(1);
    assert_eq!(t.total().samples, 350);
    assert_eq!(t.total().decoded_frames, 2);
    // band 1 comes back with a fresh pipeline: counted on top of the evicted part
    assert!(t.update(1, stats(10, 0, 0)));
    assert_eq!(t.total().samples, 360);
    // a counter that goes down is refused and changes nothing
    assert!(!t.update(2, stats(40, 1, 0)));
    assert_eq!(t.total().samples, 360);
    // so is a total past u64::MAX
    assert!(!t.update(3, stats(u64::MAX, 0, 0)));
    assert_eq!(t.total().samples, 360);
    // evicting a band that is not resident changes nothing
    t.evict(42);
    assert_eq!(t.total().samples, 360);
    assert_eq!(t.total().ns_detect, 0);
}

#[test]
fn each_burst_counts_once_with_its_outcome() {
    let mut s = PipelineStats { samples: 1000, ns_demod: 5, ..PipelineStats::default() };
    s.count_burst(BurstOutcome::LostFromRing);
    s.count_burst(BurstOutcome::Extracted { demodulated: false, frames: 0 });
    s.count_burst(BurstOutcome::Extracted { demodulated: true, frames: 0 });
    s.count_burst(BurstOutcome::Extracted { demodulated: true, frames: 3 });
    assert_eq!(s.bursts, 4);
    assert_eq!(s.bursts_lost_from_ring, 1);
    assert_eq!(s.demodulated, 2);
    assert_eq!(s.decoded_frames, 3);
    assert_eq!(s.samples, 1000);
    assert_eq!(s.ns_demod, 5);
}
