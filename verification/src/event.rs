//! Typed events. Control plane (who heard it, when, how well) and data plane
//! (what the sensor said) are separate structs; a decoded reading never
//! carries signal fields next to temperature fields.
//!
//! Readings are exact integers in the sensor's own step: a field named
//! `…_x10` holds ten times the quantity (0.1 steps), `…_x4` four times it
//! (0.25 steps), `…_pct` a percentage, `…_fifths` / `…_halves` a fraction of
//! full scale in fifths / halves.

use vstd::prelude::*;
use vstd::utf8::{encode_utf8, encode_utf8_decode_utf8};

verus! {

/// Name of a receiver pipeline, e.g. "tower-airspy". Configured by the operator.
#[derive(Clone, Debug, PartialEq, Eq, PartialOrd, Ord, Hash)]
pub struct ReceiverId(pub String);

impl ReceiverId {
    pub open spec fn view(&self) -> Seq<char> {
        self.0@
    }

    /// Whether `self` comes before `other` in receiver order (`name_lt`).
    pub fn precedes(&self, other: &ReceiverId) -> (r: bool)
        ensures
            r == name_lt(self@, other@),
    {
        let a = self.0.as_str().as_bytes();
        let b = other.0.as_str().as_bytes();
        let ghost ea = encode_utf8(self@);
        let ghost eb = encode_utf8(other@);
        assert(a@ == ea);
        assert(b@ == eb);
        let mut i: usize = 0;
        assert(ea.skip(0) =~= ea);
        assert(eb.skip(0) =~= eb);
        while i < a.len() && i < b.len() && a[i] == b[i]
            invariant
                a@ == ea,
                b@ == eb,
                i <= a@.len(),
                i <= b@.len(),
                bytes_lt(ea, eb) == bytes_lt(ea.skip(i as int), eb.skip(i as int)),
            decreases a@.len() - i,
        {
            assert(ea.skip(i as int).drop_first() =~= ea.skip(i + 1));
            assert(eb.skip(i as int).drop_first() =~= eb.skip(i + 1));
            i = i + 1;
        }
        if i < a.len() && i < b.len() {
            a[i] < b[i]
        } else {
            i == a.len() && i < b.len()
        }
    }
}

/// Lexicographic order of byte strings, a proper prefix first.
pub open spec fn bytes_lt(a: Seq<u8>, b: Seq<u8>) -> bool
    decreases a.len(),
{
    if a.len() == 0 {
        b.len() > 0
    } else if b.len() == 0 {
        false
    } else if a[0] != b[0] {
        a[0] < b[0]
    } else {
        bytes_lt(a.drop_first(), b.drop_first())
    }
}

/// Receiver order: by the names' UTF-8 bytes, the order of `String`.
pub open spec fn name_lt(a: Seq<char>, b: Seq<char>) -> bool {
    bytes_lt(encode_utf8(a), encode_utf8(b))
}

proof fn lemma_bytes_lt_irreflexive(a: Seq<u8>)
    ensures
        !bytes_lt(a, a),
    decreases a.len(),
{
    if a.len() > 0 {
        lemma_bytes_lt_irreflexive(a.drop_first());
    }
}

proof fn lemma_bytes_lt_total(a: Seq<u8>, b: Seq<u8>)
    requires
        a != b,
    ensures
        bytes_lt(a, b) || bytes_lt(b, a),
    decreases a.len(),
{
    if a.len() > 0 && b.len() > 0 && a[0] == b[0] {
        if a.drop_first() == b.drop_first() {
            assert(a =~= seq![a[0]] + a.drop_first());
            assert(b =~= seq![b[0]] + b.drop_first());
        }
        lemma_bytes_lt_total(a.drop_first(), b.drop_first());
    } else if a.len() == 0 && b.len() == 0 {
        assert(a =~= b);
    }
}

proof fn lemma_bytes_lt_transitive(a: Seq<u8>, b: Seq<u8>, c: Seq<u8>)
    requires
        bytes_lt(a, b),
        bytes_lt(b, c),
    ensures
        bytes_lt(a, c),
    decreases a.len(),
{
    if a.len() > 0 && b.len() > 0 && c.len() > 0 && a[0] == b[0] && b[0] == c[0] {
        lemma_bytes_lt_transitive(a.drop_first(), b.drop_first(), c.drop_first());
    }
}

/// Receiver order is a strict total order on names.
pub proof fn lemma_name_order(a: Seq<char>, b: Seq<char>, c: Seq<char>)
    ensures
        !name_lt(a, a),
        a != b ==> name_lt(a, b) || name_lt(b, a),
        name_lt(a, b) && name_lt(b, c) ==> name_lt(a, c),
{
    lemma_bytes_lt_irreflexive(encode_utf8(a));
    if a != b {
        encode_utf8_decode_utf8(a);
        encode_utf8_decode_utf8(b);
        lemma_bytes_lt_total(encode_utf8(a), encode_utf8(b));
    }
    if name_lt(a, b) && name_lt(b, c) {
        lemma_bytes_lt_transitive(encode_utf8(a), encode_utf8(b), encode_utf8(c));
    }
}

/// Fineoffset WS90 7-in-1 weather station.
#[derive(Clone, Debug, PartialEq, Eq)]
pub struct Ws90 {
    pub id: u32,
    pub battery_mv: u16,
    /// 0..=100, mapped linearly from 1.4 V..3.0 V.
    pub battery_pct: u8,
    pub temperature_c_x10: Option<i16>,
    pub humidity_pct: Option<u8>,
    pub pressure_hpa: Option<u16>,
    pub wind_dir_deg: Option<u16>,
    pub wind_avg_m_s_x10: Option<u16>,
    pub wind_max_m_s_x10: Option<u16>,
    pub uv_index_x10: Option<u8>,
    pub light_lux: Option<u32>,
    /// Lifetime rain counter.
    pub rain_total_mm_x10: u16,
    pub rain_start: bool,
    pub supercap_v_x10: Option<u8>,
    pub firmware: u8,
    pub flags: u8,
}

/// Fineoffset WH51 soil moisture probe.
#[derive(Clone, Debug, PartialEq, Eq)]
pub struct Wh51 {
    /// 24-bit id; rtl_433 prints it as 6 hex digits.
    pub id: u32,
    pub battery_mv: u16,
    /// 0, 10, 50, 90 or 100, per rtl_433's alkaline-cell mapping.
    pub battery_pct: u8,
    pub moisture_pct: u8,
    pub boost: u8,
    pub ad_raw: u16,
}

/// Fineoffset WH55 water leak sensor.
#[derive(Clone, Debug, PartialEq, Eq)]
pub struct Wh55 {
    pub id: u16,
    pub channel: u8,
    /// Battery level in fifths of full (the sensor sends 1..=5).
    pub battery_fifths: u8,
    pub raw_value: u16,
    pub high_sensitivity: bool,
    pub alarm: bool,
}

#[derive(Clone, Copy, Debug, PartialEq, Eq)]
pub enum LightningState {
    Reset,
    Interference,
    Noise,
    Strike,
    Unknown(u8),
}

/// Fineoffset WH57 lightning sensor (rtl_433 calls it FineOffset-WH31L).
#[derive(Clone, Debug, PartialEq, Eq)]
pub struct Wh31l {
    pub id: u32,
    /// 0, 1 or 2 halves of full.
    pub battery_halves: u8,
    pub state: LightningState,
    pub storm_dist_km: Option<u8>,
    pub strike_count: u8,
    pub flags: u16,
}

#[derive(Clone, Copy, Debug, PartialEq, Eq)]
pub enum Wh25Variant {
    Wh25,
    Wh32,
    Wh32b,
}

/// Fineoffset WH25 / WH32 / WH32B indoor temperature, humidity, pressure.
#[derive(Clone, Debug, PartialEq, Eq)]
pub struct Wh25 {
    pub id: u8,
    pub variant: Wh25Variant,
    pub battery_ok: bool,
    pub temperature_c_x10: Option<i16>,
    pub humidity_pct: u8,
    pub pressure_hpa_x10: Option<u16>,
}

/// Fineoffset WH46 / WH46D 7-in-1 indoor air quality sensor.
#[derive(Clone, Debug, PartialEq, Eq)]
pub struct Wh46 {
    pub id: u32,
    /// Battery bars as sent (0..=5; 6 while on USB power).
    pub battery_bars: u8,
    pub external_power: bool,
    /// Battery level in fifths of full (bars capped at 5).
    pub battery_fifths: u8,
    pub temperature_c_x10: i16,
    pub humidity_pct: u8,
    pub co2_ppm: u16,
    pub pm1_ug_m3_x10: u16,
    pub pm2_5_ug_m3_x10: u16,
    pub pm4_ug_m3_x10: u16,
    pub pm10_ug_m3_x10: u16,
    /// Constant 0x0190 on every frame seen so far.
    pub unknown: u16,
}

/// Toyota / Pacific Industries PMV-C210 tire pressure sensor (315 MHz in the US).
#[derive(Clone, Debug, PartialEq, Eq)]
pub struct ToyotaTpms {
    /// 32-bit sensor id (rtl_433 prints 8 hex digits).
    pub id: u32,
    /// Gauge pressure in quarter psi.
    pub pressure_psi_x4: i16,
    pub temperature_c: i16,
    /// Raw status byte (bit 7 = state flag, low 7 bits as transmitted).
    pub status: u8,
}

/// Data plane: what a sensor reported. Fields that the sensor can flag as
/// "not available" are `Option`s. Units are in the field names.
#[derive(Clone, Debug, PartialEq, Eq)]
pub enum Payload {
    Ws90(Ws90),
    Wh51(Wh51),
    Wh55(Wh55),
    Wh31l(Wh31l),
    Wh25(Wh25),
    Wh46(Wh46),
    ToyotaTpms(ToyotaTpms),
}

/// rtl_433-compatible model name of a payload.
pub open spec fn spec_model(p: Payload) -> Seq<char> {
    match p {
        Payload::Ws90(_) => "Fineoffset-WS90"@,
        Payload::Wh51(_) => "Fineoffset-WH51"@,
        Payload::Wh55(_) => "Fineoffset-WH55"@,
        Payload::Wh31l(_) => "FineOffset-WH31L"@,
        Payload::Wh25(_) => "Fineoffset-WH25"@,
        Payload::Wh46(_) => "Fineoffset-WH46"@,
        Payload::ToyotaTpms(_) => "Toyota-TPMS"@,
    }
}

/// The sensor's own identifier, widened to 32 bits.
pub open spec fn spec_sensor_id(p: Payload) -> u32 {
    match p {
        Payload::Ws90(q) => q.id,
        Payload::Wh51(q) => q.id,
        Payload::Wh55(q) => q.id as u32,
        Payload::Wh31l(q) => q.id,
        Payload::Wh25(q) => q.id as u32,
        Payload::Wh46(q) => q.id,
        Payload::ToyotaTpms(q) => q.id,
    }
}

impl Payload {
    /// rtl_433-compatible model name.
    pub fn model(&self) -> (r: &'static str)
        ensures
            r@ == spec_model(*self),
    {
        match self {
            Payload::Ws90(_) => "Fineoffset-WS90",
            Payload::Wh51(_) => "Fineoffset-WH51",
            Payload::Wh55(_) => "Fineoffset-WH55",
            Payload::Wh31l(_) => "FineOffset-WH31L",
            Payload::Wh25(_) => "Fineoffset-WH25",
            Payload::Wh46(_) => "Fineoffset-WH46",
            Payload::ToyotaTpms(_) => "Toyota-TPMS",
        }
    }

    /// The sensor's own identifier (width depends on the model).
    pub fn sensor_id(&self) -> (r: u32)
        ensures
            r == spec_sensor_id(*self),
    {
        match self {
            Payload::Ws90(p) => p.id,
            Payload::Wh51(p) => p.id,
            Payload::Wh55(p) => p.id as u32,
            Payload::Wh31l(p) => p.id,
            Payload::Wh25(p) => p.id as u32,
            Payload::Wh46(p) => p.id,
            Payload::ToyotaTpms(p) => p.id,
        }
    }
}

/// A decoded transmission from one receiver, before cross-receiver merging.
/// `S` is the receiver's signal measurement for it (frequencies, levels),
/// which merging carries along untouched. Times are nanoseconds since the
/// Unix epoch.
pub struct ReceiverEvent<S> {
    pub receiver: ReceiverId,
    pub time_ns: i128,
    pub signal: S,
    pub sensor: Payload,
    /// Frame bytes after the sync word, integrity bytes included. Identical
    /// bytes from two receivers within a short window are the same transmission.
    pub raw: Vec<u8>,
}

/// Control plane: when a transmission was received and by whom.
pub struct Reception<S> {
    /// Time of the earliest receiver's copy (ns since the Unix epoch).
    pub time_ns: i128,
    /// Every receiver that decoded this exact transmission, with its own
    /// signal measurement; one entry per receiver, in receiver order (`name_lt`).
    pub heard_by: Vec<(ReceiverId, S)>,
}

/// A transmission as reported to consumers: one sensor reading, heard by one
/// or more receivers.
pub struct Event<S> {
    pub reception: Reception<S>,
    pub sensor: Payload,
    pub raw: Vec<u8>,
}

} // verus!
