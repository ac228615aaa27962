//! Protocol decoders: pure functions from demodulated bits to typed payloads.

pub mod fineoffset;
pub mod toyota_tpms;
pub mod wh25;
pub mod wh31l;
pub mod wh46;
pub mod wh51;
pub mod wh55;
pub mod ws90;

use crate::bits::{inverted, spec_extract_bytes, spec_inverted};
use crate::event::Payload;
use vstd::prelude::*;

verus! {

/// Big-endian 16-bit value of two bytes.
pub open spec fn spec_u16_be(hi: u8, lo: u8) -> u16 {
    ((hi as u16) << 8u16) | (lo as u16)
}

proof fn lemma_u16_be(hi: u8, lo: u8)
    by (bit_vector)
    ensures
        spec_u16_be(hi, lo) == hi * 256 + lo,
{
}

/// Big-endian 16-bit value of two bytes.
pub fn u16_be(hi: u8, lo: u8) -> (r: u16)
    ensures
        r == spec_u16_be(hi, lo),
{
    ((hi as u16) << 8) | (lo as u16)
}

/// What a decoder expects the demodulator to have produced.
#[derive(Clone, Copy, Debug, PartialEq, Eq)]
pub enum Modulation {
    /// 2-FSK, NRZ, mark (higher tone) = 1; symbol rate in millibaud.
    Fsk { symbol_rate_millihz: u64 },
}

/// An RF band a decoder's sensors transmit in: `center_hz ± half_width_hz`.
#[derive(Clone, Copy, Debug, PartialEq, Eq)]
pub struct Band {
    pub center_hz: u64,
    pub half_width_hz: u64,
}

impl Band {
    pub open spec fn spec_contains(self, f_hz: u64) -> bool {
        self.center_hz - self.half_width_hz <= f_hz <= self.center_hz + self.half_width_hz
    }

    /// Whether `f_hz` lies in the band (edges included).
    pub fn contains(&self, f_hz: u64) -> (r: bool)
        ensures
            r == self.spec_contains(f_hz),
    {
        let lo = if self.center_hz >= self.half_width_hz { self.center_hz - self.half_width_hz } else { 0 };
        let hi_ok = f_hz <= self.center_hz || f_hz - self.center_hz <= self.half_width_hz;
        lo <= f_hz && hi_ok
    }
}

/// One decoded frame out of a bit string.
pub struct Decoded {
    pub payload: Payload,
    /// Frame bytes after the sync word, integrity bytes included.
    pub raw: Vec<u8>,
    /// Bit offset of the frame's first byte in the (possibly inverted) bit string.
    pub bit_offset: usize,
    /// Whether the bits had to be inverted (space = 1) to decode.
    pub inverted: bool,
}

/// A decoded frame as values: payload, raw bytes, bit offset, inverted.
pub type DecodedView = (Payload, Seq<u8>, usize, bool);

impl Decoded {
    pub open spec fn view(&self) -> DecodedView {
        (self.payload, self.raw@, self.bit_offset, self.inverted)
    }
}

pub open spec fn views(s: Seq<Decoded>) -> Seq<DecodedView> {
    Seq::new(s.len(), |i: int| s[i]@)
}

/// Why a candidate frame was rejected. Useful for diagnostics counters.
#[derive(Clone, Copy, Debug, PartialEq, Eq)]
pub enum FrameError {
    WrongFamily,
    Truncated,
    Integrity,
}

/// The sensor families sensormon decodes.
#[derive(Clone, Copy, Debug, PartialEq, Eq)]
pub enum DecoderKind {
    Ws90,
    Wh51,
    Wh55,
    Wh31l,
    Wh25,
    Wh46,
    ToyotaTpms,
}

pub open spec fn spec_name(k: DecoderKind) -> Seq<char> {
    match k {
        DecoderKind::Ws90 => "Fineoffset-WS90"@,
        DecoderKind::Wh51 => "Fineoffset-WH51"@,
        DecoderKind::Wh55 => "Fineoffset-WH55"@,
        DecoderKind::Wh31l => "FineOffset-WH31L"@,
        DecoderKind::Wh25 => "Fineoffset-WH25"@,
        DecoderKind::Wh46 => "Fineoffset-WH46"@,
        DecoderKind::ToyotaTpms => "Toyota-TPMS"@,
    }
}

pub open spec fn spec_symbol_rate(k: DecoderKind) -> u64 {
    match k {
        DecoderKind::ToyotaTpms => toyota_tpms::SYMBOL_RATE_MILLIHZ,
        _ => fineoffset::SYMBOL_RATE_MILLIHZ,
    }
}

pub open spec fn spec_modulation(k: DecoderKind) -> Modulation {
    Modulation::Fsk { symbol_rate_millihz: spec_symbol_rate(k) }
}

/// The bands a family lives in; empty means "any band".
pub open spec fn spec_bands(k: DecoderKind) -> Seq<Band> {
    match k {
        DecoderKind::ToyotaTpms => seq![
            Band { center_hz: 315_000_000, half_width_hz: 2_000_000 },
            Band { center_hz: 433_920_000, half_width_hz: 2_000_000 },
        ],
        DecoderKind::Wh51 | DecoderKind::Wh55 | DecoderKind::Wh46 => seq![
            Band { center_hz: 433_920_000, half_width_hz: 2_000_000 },
            Band { center_hz: 868_300_000, half_width_hz: 2_000_000 },
            Band { center_hz: 915_000_000, half_width_hz: 13_000_000 },
        ],
        _ => Seq::<Band>::empty(),
    }
}

/// Frame length (bytes after the sync word) of a Fineoffset family.
pub open spec fn spec_frame_len(k: DecoderKind) -> usize {
    match k {
        DecoderKind::Ws90 => ws90::FRAME_LEN,
        DecoderKind::Wh51 => wh51::FRAME_LEN,
        DecoderKind::Wh55 => wh55::FRAME_LEN,
        DecoderKind::Wh31l => wh31l::FRAME_LEN,
        DecoderKind::Wh25 => wh25::FRAME_LEN,
        DecoderKind::Wh46 => wh46::FRAME_LEN,
        DecoderKind::ToyotaTpms => 9,
    }
}

/// The payload a Fineoffset family reads from frame bytes, if they are valid.
pub open spec fn spec_fo_payload(k: DecoderKind, raw: Seq<u8>, burst_bits: usize) -> Option<Payload> {
    match k {
        DecoderKind::Ws90 => match ws90::spec_decode_ws90(raw) {
            Ok(p) => Some(Payload::Ws90(p)),
            Err(_) => None,
        },
        DecoderKind::Wh51 => match wh51::spec_decode_wh51(raw) {
            Ok(p) => Some(Payload::Wh51(p)),
            Err(_) => None,
        },
        DecoderKind::Wh55 => match wh55::spec_decode_wh55(raw) {
            Ok(p) => Some(Payload::Wh55(p)),
            Err(_) => None,
        },
        DecoderKind::Wh31l => match wh31l::spec_decode_wh31l(raw) {
            Ok(p) => Some(Payload::Wh31l(p)),
            Err(_) => None,
        },
        DecoderKind::Wh25 => match wh25::spec_decode_wh25(raw, burst_bits) {
            Ok(p) => Some(Payload::Wh25(p)),
            Err(_) => None,
        },
        DecoderKind::Wh46 => match wh46::spec_decode_wh46(raw) {
            Ok(p) => Some(Payload::Wh46(p)),
            Err(_) => None,
        },
        DecoderKind::ToyotaTpms => None,
    }
}

/// The frames of a Fineoffset family found at the given frame starts: for
/// each start in order, the frame's bytes, if the bits hold them and they
/// decode.
pub open spec fn spec_fo_frames(k: DecoderKind, bits: Seq<bool>, starts: Seq<int>) -> Seq<DecodedView>
    decreases starts.len(),
{
    if starts.len() == 0 {
        Seq::<DecodedView>::empty()
    } else {
        let prev = spec_fo_frames(k, bits, starts.drop_last());
        let s = starts.last();
        match spec_extract_bytes(bits, s, spec_frame_len(k) as int) {
            Some(raw) => match spec_fo_payload(k, raw, bits.len() as usize) {
                Some(p) => prev.push((p, raw, s as usize, false)),
                None => prev,
            },
            None => prev,
        }
    }
}

/// Every frame a family's decoder finds in `bits`, in order.
pub open spec fn spec_decode(k: DecoderKind, bits: Seq<bool>) -> Seq<DecodedView> {
    match k {
        DecoderKind::ToyotaTpms => toyota_tpms::spec_tpms_scan(bits, 0, Seq::<DecodedView>::empty()),
        _ => spec_fo_frames(k, bits, fineoffset::spec_frame_starts(bits)),
    }
}

/// Whether some frame in `s` has exactly the bytes `raw`.
pub open spec fn has_raw(s: Seq<DecodedView>, raw: Seq<u8>) -> bool {
    exists|i: int| 0 <= i < s.len() && #[trigger] s[i].1 == raw
}

/// Byte-wise equality of two slices.
pub fn bytes_eq(a: &[u8], b: &[u8]) -> (r: bool)
    ensures
        r == (a@ == b@),
{
    if a.len() != b.len() {
        return false;
    }
    let mut i: usize = 0;
    while i < a.len()
        invariant
            i <= a.len(),
            a.len() == b.len(),
            forall|j: int| 0 <= j < i ==> a@[j] == b@[j],
        decreases a.len() - i,
    {
        if a[i] != b[i] {
            return false;
        }
        i = i + 1;
    }
    assert(a@ =~= b@);
    true
}

/// Whether some decoded frame in `out` has the bytes `raw`.
pub fn contains_raw(out: &Vec<Decoded>, raw: &[u8]) -> (r: bool)
    ensures
        r == has_raw(views(out@), raw@),
{
    let mut i: usize = 0;
    while i < out.len()
        invariant
            i <= out.len(),
            forall|j: int| 0 <= j < i ==> out@[j].raw@ != raw@,
        decreases out.len() - i,
    {
        if bytes_eq(out[i].raw.as_slice(), raw) {
            assert(views(out@)[i as int].1 == raw@);
            return true;
        }
        i = i + 1;
    }
    proof {
        if has_raw(views(out@), raw@) {
            let j = choose|j: int| 0 <= j < views(out@).len() && #[trigger] views(out@)[j].1 == raw@;
            assert(out@[j].raw@ == raw@);
        }
    }
    false
}

impl DecoderKind {
    /// rtl_433-compatible name, e.g. "Fineoffset-WH51".
    pub fn name(&self) -> (r: &'static str)
        ensures
            r@ == spec_name(*self),
    {
        match self {
            DecoderKind::Ws90 => "Fineoffset-WS90",
            DecoderKind::Wh51 => "Fineoffset-WH51",
            DecoderKind::Wh55 => "Fineoffset-WH55",
            DecoderKind::Wh31l => "FineOffset-WH31L",
            DecoderKind::Wh25 => "Fineoffset-WH25",
            DecoderKind::Wh46 => "Fineoffset-WH46",
            DecoderKind::ToyotaTpms => "Toyota-TPMS",
        }
    }

    pub fn symbol_rate_millihz(&self) -> (r: u64)
        ensures
            r == spec_symbol_rate(*self),
    {
        match self {
            DecoderKind::ToyotaTpms => toyota_tpms::SYMBOL_RATE_MILLIHZ,
            _ => fineoffset::SYMBOL_RATE_MILLIHZ,
        }
    }

    pub fn modulation(&self) -> (r: Modulation)
        ensures
            r == spec_modulation(*self),
    {
        Modulation::Fsk { symbol_rate_millihz: self.symbol_rate_millihz() }
    }

    /// The RF bands the family lives in; empty means any band.
    pub fn bands(&self) -> (r: Vec<Band>)
        ensures
            r@ == spec_bands(*self),
    {
        let mut v: Vec<Band> = Vec::new();
        match self {
            DecoderKind::ToyotaTpms => {
                v.push(Band { center_hz: 315_000_000, half_width_hz: 2_000_000 });
                v.push(Band { center_hz: 433_920_000, half_width_hz: 2_000_000 });
            },
            DecoderKind::Wh51 | DecoderKind::Wh55 | DecoderKind::Wh46 => {
                v.push(Band { center_hz: 433_920_000, half_width_hz: 2_000_000 });
                v.push(Band { center_hz: 868_300_000, half_width_hz: 2_000_000 });
                v.push(Band { center_hz: 915_000_000, half_width_hz: 13_000_000 });
            },
            _ => {},
        }
        assert(v@ =~= spec_bands(*self));
        v
    }

    fn frame_len(&self) -> (r: usize)
        ensures
            r == spec_frame_len(*self),
    {
        match self {
            DecoderKind::Ws90 => ws90::FRAME_LEN,
            DecoderKind::Wh51 => wh51::FRAME_LEN,
            DecoderKind::Wh55 => wh55::FRAME_LEN,
            DecoderKind::Wh31l => wh31l::FRAME_LEN,
            DecoderKind::Wh25 => wh25::FRAME_LEN,
            DecoderKind::Wh46 => wh46::FRAME_LEN,
            DecoderKind::ToyotaTpms => 9,
        }
    }

    fn fo_payload(&self, raw: &[u8], burst_bits: usize) -> (r: Option<Payload>)
        ensures
            r == spec_fo_payload(*self, raw@, burst_bits),
    {
        match self {
            DecoderKind::Ws90 => match ws90::decode_frame(raw) {
                Ok(p) => Some(Payload::Ws90(p)),
                Err(_) => None,
            },
            DecoderKind::Wh51 => match wh51::decode_frame(raw) {
                Ok(p) => Some(Payload::Wh51(p)),
                Err(_) => None,
            },
            DecoderKind::Wh55 => match wh55::decode_frame(raw) {
                Ok(p) => Some(Payload::Wh55(p)),
                Err(_) => None,
            },
            DecoderKind::Wh31l => match wh31l::decode_frame(raw) {
                Ok(p) => Some(Payload::Wh31l(p)),
                Err(_) => None,
            },
            DecoderKind::Wh25 => match wh25::decode_frame(raw, burst_bits) {
                Ok(p) => Some(Payload::Wh25(p)),
                Err(_) => None,
            },
            DecoderKind::Wh46 => match wh46::decode_frame(raw) {
                Ok(p) => Some(Payload::Wh46(p)),
                Err(_) => None,
            },
            DecoderKind::ToyotaTpms => None,
        }
    }

    /// Decode every frame present in `bits` (a burst may carry repeats).
    pub fn decode(&self, bits: &[bool]) -> (r: Vec<Decoded>)
        ensures
            views(r@) == spec_decode(*self, bits@),
    {
        match self {
            DecoderKind::ToyotaTpms => toyota_tpms::decode_bits(bits),
            _ => self.decode_fineoffset(bits),
        }
    }

    fn decode_fineoffset(&self, bits: &[bool]) -> (r: Vec<Decoded>)
        requires
            *self != DecoderKind::ToyotaTpms,
        ensures
            views(r@) == spec_fo_frames(*self, bits@, fineoffset::spec_frame_starts(bits@)),
    {
        let starts = fineoffset::frame_starts(bits);
        let ghost all = starts@.map_values(|x: usize| x as int);
        let len = self.frame_len();
        let mut out: Vec<Decoded> = Vec::new();
        let mut i: usize = 0;
        while i < starts.len()
            invariant
                i <= starts.len(),
                len == spec_frame_len(*self),
                all == starts@.map_values(|x: usize| x as int),
                all == fineoffset::spec_frame_starts(bits@),
                views(out@) == spec_fo_frames(*self, bits@, all.take(i as int)),
            decreases starts.len() - i,
        {
            let start = starts[i];
            proof {
                assert(all.take(i + 1).drop_last() =~= all.take(i as int));
                assert(all.take(i + 1).last() == start as int);
            }
            let ghost before = out@;
            match fineoffset::frame_bytes(bits, start, len) {
                Some(raw) => {
                    match self.fo_payload(raw.as_slice(), bits.len()) {
                        Some(p) => {
                            out.push(Decoded { payload: p, raw, bit_offset: start, inverted: false });
                            assert(views(out@) =~= views(before).push(out@.last()@));
                        },
                        None => {},
                    }
                },
                None => {},
            }
            i = i + 1;
        }
        assert(all.take(i as int) =~= all);
        out
    }
}

/// A decoder for one sensor family.
pub trait Decoder {
    /// The family this decoder reads.
    spec fn kind(&self) -> DecoderKind;

    /// rtl_433-compatible name, e.g. "Fineoffset-WH51".
    fn name(&self) -> (r: &'static str)
        ensures
            r@ == spec_name(self.kind());

    fn modulation(&self) -> (r: Modulation)
        ensures
            r == spec_modulation(self.kind());

    /// The RF bands the family lives in; empty means any band.
    fn bands(&self) -> (r: Vec<Band>)
        ensures
            r@ == spec_bands(self.kind());

    /// Decode every frame present in `bits` (a burst may carry repeats).
    fn decode(&self, bits: &[bool]) -> (r: Vec<Decoded>)
        ensures
            views(r@) == spec_decode(self.kind(), bits@);
}

impl Decoder for DecoderKind {
    open spec fn kind(&self) -> DecoderKind {
        *self
    }

    fn name(&self) -> (r: &'static str) {
        DecoderKind::name(self)
    }

    fn modulation(&self) -> (r: Modulation) {
        DecoderKind::modulation(self)
    }

    fn bands(&self) -> (r: Vec<Band>) {
        DecoderKind::bands(self)
    }

    fn decode(&self, bits: &[bool]) -> (r: Vec<Decoded>) {
        DecoderKind::decode(self, bits)
    }
}

/// The decoders sensormon runs.
pub open spec fn spec_decoders() -> Seq<DecoderKind> {
    seq![
        DecoderKind::Ws90,
        DecoderKind::Wh51,
        DecoderKind::Wh55,
        DecoderKind::Wh31l,
        DecoderKind::Wh25,
        DecoderKind::ToyotaTpms,
    ]
}

/// All decoders sensormon runs.
pub fn decoders() -> (r: Vec<DecoderKind>)
    ensures
        r@ == spec_decoders(),
{
    let mut v: Vec<DecoderKind> = Vec::new();
    v.push(DecoderKind::Ws90);
    v.push(DecoderKind::Wh51);
    v.push(DecoderKind::Wh55);
    v.push(DecoderKind::Wh31l);
    v.push(DecoderKind::Wh25);
    v.push(DecoderKind::ToyotaTpms);
    assert(v@ =~= spec_decoders());
    v
}

/// Two symbol rates closer than 1 baud are the same rate.
pub open spec fn same_rate(a: u64, b: u64) -> bool {
    -1000 < a - b < 1000
}

/// Distinct symbol rates of the decoders, in first-seen order.
pub open spec fn spec_symbol_rates(decs: Seq<DecoderKind>) -> Seq<u64>
    decreases decs.len(),
{
    if decs.len() == 0 {
        Seq::<u64>::empty()
    } else {
        let prev = spec_symbol_rates(decs.drop_last());
        let r = spec_symbol_rate(decs.last());
        if exists|i: int| 0 <= i < prev.len() && same_rate(#[trigger] prev[i], r) {
            prev
        } else {
            prev.push(r)
        }
    }
}

/// Distinct FSK symbol rates (millibaud) the given decoders need (one demod pass each).
pub fn symbol_rates(decs: &[DecoderKind]) -> (r: Vec<u64>)
    ensures
        r@ == spec_symbol_rates(decs@),
{
    let mut rates: Vec<u64> = Vec::new();
    let mut i: usize = 0;
    while i < decs.len()
        invariant
            i <= decs.len(),
            rates@ == spec_symbol_rates(decs@.take(i as int)),
        decreases decs.len() - i,
    {
        let r = decs[i].symbol_rate_millihz();
        proof {
            assert(decs@.take(i + 1).drop_last() =~= decs@.take(i as int));
        }
        let mut j: usize = 0;
        let mut seen = false;
        while j < rates.len() && !seen
            invariant
                j <= rates.len(),
                seen ==> exists|k: int| 0 <= k < rates@.len() && same_rate(#[trigger] rates@[k], r),
                !seen ==> forall|k: int| 0 <= k < j ==> !same_rate(#[trigger] rates@[k], r),
            decreases rates.len() - j + (if seen { 0int } else { 1int }),
        {
            let x = rates[j];
            if (x >= r && x - r < 1000) || (x < r && r - x < 1000) {
                seen = true;
                assert(same_rate(rates@[j as int], r));
            } else {
                j = j + 1;
            }
        }
        if !seen {
            rates.push(r);
        }
        i = i + 1;
    }
    assert(decs@.take(i as int) =~= decs@);
    rates
}

/// The decoders whose symbol rate is `rate`.
pub open spec fn spec_decoders_for_rate(decs: Seq<DecoderKind>, rate: u64) -> Seq<DecoderKind>
    decreases decs.len(),
{
    if decs.len() == 0 {
        Seq::<DecoderKind>::empty()
    } else {
        let prev = spec_decoders_for_rate(decs.drop_last(), rate);
        if same_rate(spec_symbol_rate(decs.last()), rate) {
            prev.push(decs.last())
        } else {
            prev
        }
    }
}

/// Decoders that want this symbol rate (millibaud).
pub fn decoders_for_rate(decs: &[DecoderKind], rate: u64) -> (r: Vec<DecoderKind>)
    ensures
        r@ == spec_decoders_for_rate(decs@, rate),
{
    let mut out: Vec<DecoderKind> = Vec::new();
    let mut i: usize = 0;
    while i < decs.len()
        invariant
            i <= decs.len(),
            out@ == spec_decoders_for_rate(decs@.take(i as int), rate),
        decreases decs.len() - i,
    {
        let d = decs[i];
        let x = d.symbol_rate_millihz();
        proof {
            assert(decs@.take(i + 1).drop_last() =~= decs@.take(i as int));
        }
        if (x >= rate && x - rate < 1000) || (x < rate && rate - x < 1000) {
            out.push(d);
        }
        i = i + 1;
    }
    assert(decs@.take(i as int) =~= decs@);
    out
}

/// A family can occur at `center_hz` when it declares no bands or one of
/// its bands holds that frequency.
pub open spec fn occurs_at(k: DecoderKind, center_hz: u64) -> bool {
    spec_bands(k).len() == 0 || exists|i: int| 0 <= i < spec_bands(k).len() && #[trigger] spec_bands(k)[i].spec_contains(center_hz)
}

/// The decoders that can occur at a receiver tuned to `center_hz`.
pub open spec fn spec_decoders_for_center(decs: Seq<DecoderKind>, center_hz: u64) -> Seq<DecoderKind>
    decreases decs.len(),
{
    if decs.len() == 0 {
        Seq::<DecoderKind>::empty()
    } else {
        let prev = spec_decoders_for_center(decs.drop_last(), center_hz);
        if occurs_at(decs.last(), center_hz) {
            prev.push(decs.last())
        } else {
            prev
        }
    }
}

fn occurs_at_exec(k: DecoderKind, center_hz: u64) -> (r: bool)
    ensures
        r == occurs_at(k, center_hz),
{
    let bands = k.bands();
    if bands.len() == 0 {
        return true;
    }
    let mut i: usize = 0;
    while i < bands.len()
        invariant
            i <= bands.len(),
            bands@ == spec_bands(k),
            forall|j: int| 0 <= j < i ==> !(#[trigger] bands@[j]).spec_contains(center_hz),
        decreases bands.len() - i,
    {
        if bands[i].contains(center_hz) {
            return true;
        }
        i = i + 1;
    }
    false
}

/// Decoders whose bands include `center_hz` (or that declare no bands), so
/// a band only runs the symbol rates of the decoders that can occur there.
pub fn decoders_for_center(decs: &[DecoderKind], center_hz: u64) -> (r: Vec<DecoderKind>)
    ensures
        r@ == spec_decoders_for_center(decs@, center_hz),
{
    let mut out: Vec<DecoderKind> = Vec::new();
    let mut i: usize = 0;
    while i < decs.len()
        invariant
            i <= decs.len(),
            out@ == spec_decoders_for_center(decs@.take(i as int), center_hz),
        decreases decs.len() - i,
    {
        let d = decs[i];
        proof {
            assert(decs@.take(i + 1).drop_last() =~= decs@.take(i as int));
        }
        if occurs_at_exec(d, center_hz) {
            out.push(d);
        }
        i = i + 1;
    }
    assert(decs@.take(i as int) =~= decs@);
    out
}

/// A frame with its polarity flag set to `inv`.
pub open spec fn with_polarity(v: DecodedView, inv: bool) -> DecodedView {
    (v.0, v.1, v.2, inv)
}

/// The frames every decoder finds in `bits`, decoder by decoder, each marked
/// with polarity `inv`.
pub open spec fn candidates(decs: Seq<DecoderKind>, bits: Seq<bool>, inv: bool) -> Seq<DecodedView>
    decreases decs.len(),
{
    if decs.len() == 0 {
        Seq::<DecodedView>::empty()
    } else {
        candidates(decs.drop_last(), bits, inv) + Seq::new(
            spec_decode(decs.last(), bits).len(),
            |j: int| with_polarity(spec_decode(decs.last(), bits)[j], inv),
        )
    }
}

/// Keep the first frame of each distinct byte string, in order.
pub open spec fn dedup_raw(s: Seq<DecodedView>) -> Seq<DecodedView>
    decreases s.len(),
{
    if s.len() == 0 {
        Seq::<DecodedView>::empty()
    } else {
        let prev = dedup_raw(s.drop_last());
        if has_raw(prev, s.last().1) {
            prev
        } else {
            prev.push(s.last())
        }
    }
}

/// What `decode_all` returns: the frames found in the bits as given, then
/// in the inverted bits, without repeating a byte string.
pub open spec fn spec_decode_all(decs: Seq<DecoderKind>, bits: Seq<bool>) -> Seq<DecodedView> {
    dedup_raw(candidates(decs, bits, false) + candidates(decs, spec_inverted(bits), true))
}

/// Run every decoder over the bits and over their inversion, de-duplicating
/// identical frames (a frame that decodes in both polarities is one frame).
pub fn decode_all(decs: &[DecoderKind], bits: &[bool]) -> (r: Vec<Decoded>)
    ensures
        views(r@) == spec_decode_all(decs@, bits@),
{
    let inv = inverted(bits);
    let mut out: Vec<Decoded> = Vec::new();
    let ghost mut done: Seq<DecodedView> = Seq::empty();
    let ghost first_pass = candidates(decs@, bits@, false);
    let mut pass: usize = 0;
    assert(views(out@) =~= dedup_raw(done));
    while pass < 2
        invariant
            pass <= 2,
            inv@ == spec_inverted(bits@),
            first_pass == candidates(decs@, bits@, false),
            pass == 0 ==> done == Seq::<DecodedView>::empty(),
            pass == 1 ==> done == first_pass,
            pass == 2 ==> done == first_pass + candidates(decs@, spec_inverted(bits@), true),
            views(out@) == dedup_raw(done),
        decreases 2 - pass,
    {
        let polarity = pass == 1;
        let b: &[bool] = if polarity { inv.as_slice() } else { bits };
        let ghost base = done;
        let mut i: usize = 0;
        while i < decs.len()
            invariant
                i <= decs.len(),
                pass < 2,
                polarity == (pass == 1),
                inv@ == spec_inverted(bits@),
                b@ == (if polarity { spec_inverted(bits@) } else { bits@ }),
                first_pass == candidates(decs@, bits@, false),
                pass == 0 ==> base == Seq::<DecodedView>::empty(),
                pass == 1 ==> base == first_pass,
                done == base + candidates(decs@.take(i as int), b@, polarity),
                views(out@) == dedup_raw(done),
            decreases decs.len() - i,
        {
            let mut found = decs[i].decode(b);
            let ghost these = views(found@);
            let ghost done_before = done;
            proof {
                assert(decs@.take(i + 1).drop_last() =~= decs@.take(i as int));
                assert(decs@.take(i + 1).last() == decs@[i as int]);
            }
            let ghost mut j: int = 0;
            while found.len() > 0
                invariant
                    0 <= j <= these.len(),
                    views(found@) == these.subrange(j, these.len() as int),
                    done == done_before + Seq::new(j as nat, |k: int| with_polarity(these[k], polarity)),
                    views(out@) == dedup_raw(done),
                decreases found.len(),
            {
                let ghost f0 = found@;
                assert(views(f0).len() == f0.len());
                assert(j < these.len());
                assert(views(f0)[0] == f0[0]@);
                assert(these.subrange(j, these.len() as int)[0] == these[j]);
                let mut dec = found.remove(0);
                assert(dec@ == these[j]);
                assert(found@ =~= f0.subrange(1, f0.len() as int));
                dec.inverted = polarity;
                let ghost out_before = views(out@);
                let ghost item = with_polarity(these[j], polarity);
                proof {
                    let next = done_before + Seq::new((j + 1) as nat, |k: int| with_polarity(these[k], polarity));
                    assert(next.drop_last() =~= done);
                    assert(next.last() == item);
                    done = next;
                }
                if !contains_raw(&out, dec.raw.as_slice()) {
                    out.push(dec);
                    assert(views(out@) =~= out_before.push(item));
                }
                proof {
                    j = j + 1;
                    assert forall|k: int| 0 <= k < views(found@).len() implies #[trigger] views(found@)[k] == these.subrange(j, these.len() as int)[k] by {
                        assert(found@[k] == f0[k + 1]);
                        assert(views(f0)[k + 1] == f0[k + 1]@);
                    }
                    assert(views(found@) =~= these.subrange(j, these.len() as int));
                }
            }
            proof {
                assert(Seq::new(j as nat, |k: int| with_polarity(these[k], polarity)) =~= Seq::new(
                    spec_decode(decs@[i as int], b@).len(),
                    |k: int| with_polarity(spec_decode(decs@[i as int], b@)[k], polarity),
                ));
                assert(done =~= base + candidates(decs@.take(i + 1), b@, polarity));
            }
            i = i + 1;
        }
        proof {
            assert(decs@.take(i as int) =~= decs@);
        }
        pass = pass + 1;
    }
    out
}

// ---------------------------------------------------------------------------
// Laws

/// `dedup_raw` keeps at most one frame per byte string, keeps only frames
/// it was given, and keeps a frame for every byte string it was given.
pub proof fn lemma_dedup_raw(s: Seq<DecodedView>)
    ensures
        forall|i: int, j: int| 0 <= i < j < dedup_raw(s).len() ==> dedup_raw(s)[i].1 != dedup_raw(s)[j].1,
        forall|i: int| 0 <= i < dedup_raw(s).len() ==> s.contains(#[trigger] dedup_raw(s)[i]),
        forall|i: int| 0 <= i < s.len() ==> has_raw(dedup_raw(s), #[trigger] s[i].1),
    decreases s.len(),
{
    if s.len() > 0 {
        let p = s.drop_last();
        lemma_dedup_raw(p);
        let d = dedup_raw(s);
        assert forall|i: int| 0 <= i < d.len() implies s.contains(#[trigger] d[i]) by {
            if i < dedup_raw(p).len() {
                let k = choose|k: int| 0 <= k < p.len() && p[k] == dedup_raw(p)[i];
                assert(s[k] == d[i]);
            } else {
                assert(s[s.len() - 1] == d[i]);
            }
        }
        assert forall|i: int| 0 <= i < s.len() implies has_raw(d, #[trigger] s[i].1) by {
            if i < p.len() {
                assert(p[i] == s[i]);
                let k = choose|k: int| 0 <= k < dedup_raw(p).len() && #[trigger] dedup_raw(p)[k].1 == p[i].1;
                assert(d[k].1 == s[i].1);
            } else if !has_raw(dedup_raw(p), s.last().1) {
                assert(d[d.len() - 1].1 == s[i].1);
            }
        }
    }
}

/// `x` is the frame a Fineoffset family reads at bit `s` of `bits`: the
/// family's frame length in bytes taken from `s` on decodes, the decoder
/// being told the length of the whole burst.
pub open spec fn fo_frame_at(k: DecoderKind, bits: Seq<bool>, s: int, x: DecodedView) -> bool {
    &&& spec_extract_bytes(bits, s, spec_frame_len(k) as int) == Some(x.1)
    &&& spec_fo_payload(k, x.1, bits.len() as usize) == Some(x.0)
    &&& x.2 == s as usize
    &&& !x.3
}

proof fn lemma_fo_frames_members(k: DecoderKind, bits: Seq<bool>, starts: Seq<int>)
    ensures
        forall|i: int|
            0 <= i < spec_fo_frames(k, bits, starts).len() ==> exists|j: int|
                0 <= j < starts.len() && fo_frame_at(k, bits, starts[j], #[trigger] spec_fo_frames(k, bits, starts)[i]),
        forall|j: int, x: DecodedView|
            0 <= j < starts.len() && #[trigger] fo_frame_at(k, bits, starts[j], x) ==> spec_fo_frames(k, bits, starts).contains(x),
    decreases starts.len(),
{
    if starts.len() > 0 {
        let p = starts.drop_last();
        lemma_fo_frames_members(k, bits, p);
        let prev = spec_fo_frames(k, bits, p);
        let r = spec_fo_frames(k, bits, starts);
        let last = starts.last();
        assert(r.len() == prev.len() || r.len() == prev.len() + 1);
        assert forall|i: int| 0 <= i < prev.len() implies r[i] == prev[i] by {}
        assert forall|i: int| 0 <= i < r.len() implies exists|j: int|
            0 <= j < starts.len() && fo_frame_at(k, bits, starts[j], #[trigger] r[i]) by {
            if i < prev.len() {
                let j = choose|j: int| 0 <= j < p.len() && fo_frame_at(k, bits, p[j], #[trigger] prev[i]);
                assert(starts[j] == p[j]);
                assert(fo_frame_at(k, bits, starts[j], r[i]));
            } else {
                assert(fo_frame_at(k, bits, starts[starts.len() - 1], r[i]));
            }
        }
        assert forall|j: int, x: DecodedView|
            0 <= j < starts.len() && #[trigger] fo_frame_at(k, bits, starts[j], x) implies r.contains(x) by {
            if j < p.len() {
                assert(p[j] == starts[j]);
                assert(fo_frame_at(k, bits, p[j], x));
                assert(prev.contains(x));
                let i = choose|i: int| 0 <= i < prev.len() && prev[i] == x;
                assert(r[i] == x);
            } else {
                assert(last == starts[j]);
                assert(r == prev.push((x.0, x.1, last as usize, false)));
                assert(r[r.len() - 1] == x);
            }
        }
    }
}

/// A Fineoffset family's decoder returns exactly the frames it can read at
/// the sync words of `bits`: each frame in the result was read at some sync
/// word, and every frame that can be read at a sync word is in the result.
/// Each decoder is told the length of the whole burst, as rtl_433 does.
pub proof fn lemma_fineoffset_decode_exact(k: DecoderKind, bits: Seq<bool>)
    requires
        k != DecoderKind::ToyotaTpms,
    ensures
        forall|x: DecodedView|
            #[trigger] spec_decode(k, bits).contains(x) <==> exists|j: int|
                0 <= j < fineoffset::spec_frame_starts(bits).len()
                    && fo_frame_at(k, bits, fineoffset::spec_frame_starts(bits)[j], x),
{
    let starts = fineoffset::spec_frame_starts(bits);
    lemma_fo_frames_members(k, bits, starts);
    assert forall|x: DecodedView| #[trigger] spec_decode(k, bits).contains(x) implies exists|j: int|
        0 <= j < starts.len() && fo_frame_at(k, bits, starts[j], x) by {
        let r = spec_decode(k, bits);
        let i = choose|i: int| 0 <= i < r.len() && r[i] == x;
        assert(exists|j: int| 0 <= j < starts.len() && fo_frame_at(k, bits, starts[j], #[trigger] r[i]));
    }
}

/// The WH25 decoder tells the WH25 from the WH32 and WH32B by the length of
/// the whole burst: every frame it returns decodes as a WH25-family frame of
/// a burst of `bits.len()` bits, and every sync word followed by 8 bytes that
/// decode so yields that frame.
pub proof fn lemma_wh25_sees_whole_burst(bits: Seq<bool>)
    ensures
        forall|x: DecodedView| #[trigger] spec_decode(DecoderKind::Wh25, bits).contains(x) ==> match x.0 {
            Payload::Wh25(p) => wh25::spec_decode_wh25(x.1, bits.len() as usize) == Ok::<crate::event::Wh25, FrameError>(p),
            _ => false,
        },
        forall|s: int, raw: Seq<u8>|
            #![trigger spec_extract_bytes(bits, s, 8), wh25::spec_decode_wh25(raw, bits.len() as usize)]
            fineoffset::spec_frame_starts(bits).contains(s) && spec_extract_bytes(bits, s, 8) == Some(raw)
                && wh25::spec_decode_wh25(raw, bits.len() as usize) is Ok
                ==> spec_decode(DecoderKind::Wh25, bits).contains(
                (Payload::Wh25(wh25::spec_decode_wh25(raw, bits.len() as usize)->Ok_0), raw, s as usize, false),
            ),
{
    let k = DecoderKind::Wh25;
    let starts = fineoffset::spec_frame_starts(bits);
    lemma_fineoffset_decode_exact(k, bits);
    assert forall|x: DecodedView| #[trigger] spec_decode(k, bits).contains(x) implies match x.0 {
        Payload::Wh25(p) => wh25::spec_decode_wh25(x.1, bits.len() as usize) == Ok::<crate::event::Wh25, FrameError>(p),
        _ => false,
    } by {
        let j = choose|j: int| 0 <= j < starts.len() && fo_frame_at(k, bits, starts[j], x);
    }
    assert forall|s: int, raw: Seq<u8>|
        #![trigger spec_extract_bytes(bits, s, 8), wh25::spec_decode_wh25(raw, bits.len() as usize)]
        starts.contains(s) && spec_extract_bytes(bits, s, 8) == Some(raw)
            && wh25::spec_decode_wh25(raw, bits.len() as usize) is Ok
            implies spec_decode(k, bits).contains(
            (Payload::Wh25(wh25::spec_decode_wh25(raw, bits.len() as usize)->Ok_0), raw, s as usize, false),
        ) by {
        let x = (Payload::Wh25(wh25::spec_decode_wh25(raw, bits.len() as usize)->Ok_0), raw, s as usize, false);
        let j = choose|j: int| 0 <= j < starts.len() && starts[j] == s;
        assert(fo_frame_at(k, bits, starts[j], x));
    }
}

/// The frames `decode_all` returns have pairwise distinct bytes, and every
/// frame that any decoder finds in either polarity is among them by its bytes.
pub proof fn lemma_decode_all_distinct_and_complete(decs: Seq<DecoderKind>, bits: Seq<bool>)
    ensures
        forall|i: int, j: int| 0 <= i < j < spec_decode_all(decs, bits).len()
            ==> spec_decode_all(decs, bits)[i].1 != spec_decode_all(decs, bits)[j].1,
        forall|i: int| 0 <= i < candidates(decs, bits, false).len()
            ==> has_raw(spec_decode_all(decs, bits), #[trigger] candidates(decs, bits, false)[i].1),
        forall|i: int| 0 <= i < candidates(decs, spec_inverted(bits), true).len()
            ==> has_raw(spec_decode_all(decs, bits), #[trigger] candidates(decs, spec_inverted(bits), true)[i].1),
{
    let a = candidates(decs, bits, false);
    let b = candidates(decs, spec_inverted(bits), true);
    lemma_dedup_raw(a + b);
    assert forall|i: int| 0 <= i < a.len() implies has_raw(spec_decode_all(decs, bits), #[trigger] a[i].1) by {
        assert((a + b)[i] == a[i]);
    }
    assert forall|i: int| 0 <= i < b.len() implies has_raw(spec_decode_all(decs, bits), #[trigger] b[i].1) by {
        assert((a + b)[a.len() + i] == b[i]);
    }
}

/// The rates `symbol_rates` returns are pairwise more than a baud apart, and
/// each is the rate of one of the decoders.
proof fn lemma_symbol_rates(decs: Seq<DecoderKind>)
    ensures
        forall|i: int, j: int| 0 <= i < j < spec_symbol_rates(decs).len()
            ==> !same_rate(spec_symbol_rates(decs)[i], spec_symbol_rates(decs)[j]),
        forall|i: int| 0 <= i < spec_symbol_rates(decs).len()
            ==> exists|k: int| 0 <= k < decs.len() && spec_symbol_rate(decs[k]) == #[trigger] spec_symbol_rates(decs)[i],
    decreases decs.len(),
{
    if decs.len() > 0 {
        let p = decs.drop_last();
        lemma_symbol_rates(p);
        let rs = spec_symbol_rates(decs);
        let prev = spec_symbol_rates(p);
        assert forall|i: int| 0 <= i < rs.len() implies exists|k: int| 0 <= k < decs.len() && spec_symbol_rate(decs[k]) == #[trigger] rs[i] by {
            if i < prev.len() {
                let k = choose|k: int| 0 <= k < p.len() && spec_symbol_rate(p[k]) == #[trigger] prev[i];
                assert(decs[k] == p[k]);
            } else {
                assert(spec_symbol_rate(decs[decs.len() - 1]) == rs[i]);
            }
        }
    }
}

/// Every decoder `decoders_for_center` keeps is one of the given decoders
/// and can occur at the center.
proof fn lemma_decoders_for_center(decs: Seq<DecoderKind>, center_hz: u64)
    ensures
        forall|i: int| 0 <= i < spec_decoders_for_center(decs, center_hz).len() ==> {
            let k = #[trigger] spec_decoders_for_center(decs, center_hz)[i];
            decs.contains(k) && occurs_at(k, center_hz)
        },
    decreases decs.len(),
{
    if decs.len() > 0 {
        let p = decs.drop_last();
        lemma_decoders_for_center(p, center_hz);
        let ds = spec_decoders_for_center(decs, center_hz);
        let prev = spec_decoders_for_center(p, center_hz);
        assert forall|i: int| 0 <= i < ds.len() implies decs.contains(#[trigger] ds[i]) && occurs_at(ds[i], center_hz) by {
            if i < prev.len() {
                let k = choose|k: int| 0 <= k < p.len() && p[k] == prev[i];
                assert(decs[k] == p[k]);
            } else {
                assert(decs[decs.len() - 1] == ds[i]);
            }
        }
    }
}

/// A band only runs the symbol rates of the decoders that can occur there:
/// every demodulation rate chosen for a receiver tuned to `center_hz` is the
/// rate of a decoder whose bands hold that center, and no two of the rates
/// are within a baud of each other (one demodulation pass per rate).
pub proof fn lemma_band_runs_only_its_rates(decs: Seq<DecoderKind>, center_hz: u64)
    ensures
        ({
            let rates = spec_symbol_rates(spec_decoders_for_center(decs, center_hz));
            &&& forall|i: int| 0 <= i < rates.len() ==> exists|k: int|
                0 <= k < decs.len() && occurs_at(decs[k], center_hz) && spec_symbol_rate(decs[k]) == #[trigger] rates[i]
            &&& forall|i: int, j: int| 0 <= i < j < rates.len() ==> !same_rate(rates[i], rates[j])
        }),
{
    let ds = spec_decoders_for_center(decs, center_hz);
    let rates = spec_symbol_rates(ds);
    lemma_symbol_rates(ds);
    lemma_decoders_for_center(decs, center_hz);
    assert forall|i: int| 0 <= i < rates.len() implies exists|k: int|
        0 <= k < decs.len() && occurs_at(decs[k], center_hz) && spec_symbol_rate(decs[k]) == #[trigger] rates[i] by {
        let m = choose|m: int| 0 <= m < ds.len() && spec_symbol_rate(ds[m]) == #[trigger] rates[i];
        assert(decs.contains(ds[m]) && occurs_at(ds[m], center_hz));
        let k = choose|k: int| 0 <= k < decs.len() && decs[k] == ds[m];
        assert(spec_symbol_rate(decs[k]) == rates[i]);
    }
}

/// Every frame of `candidates(.., inv)` carries the polarity flag `inv`.
proof fn lemma_candidates_polarity(decs: Seq<DecoderKind>, bits: Seq<bool>, inv: bool)
    ensures
        forall|i: int| 0 <= i < candidates(decs, bits, inv).len() ==> (#[trigger] candidates(decs, bits, inv)[i]).3 == inv,
    decreases decs.len(),
{
    if decs.len() > 0 {
        lemma_candidates_polarity(decs.drop_last(), bits, inv);
        let p = candidates(decs.drop_last(), bits, inv);
        let c = candidates(decs, bits, inv);
        assert forall|i: int| 0 <= i < c.len() implies (#[trigger] c[i]).3 == inv by {
            if i < p.len() {
                assert(c[i] == p[i]);
            }
        }
    }
}

/// De-duplicating `a + b` keeps what de-duplicating `a` keeps, first and in
/// order, then frames of `b` whose bytes are not among them.
proof fn lemma_dedup_append(a: Seq<DecodedView>, b: Seq<DecodedView>)
    ensures
        dedup_raw(a).len() <= dedup_raw(a + b).len(),
        dedup_raw(a + b).take(dedup_raw(a).len() as int) == dedup_raw(a),
        forall|i: int| dedup_raw(a).len() <= i < dedup_raw(a + b).len() ==> {
            &&& b.contains(#[trigger] dedup_raw(a + b)[i])
            &&& !has_raw(dedup_raw(a), dedup_raw(a + b)[i].1)
        },
    decreases b.len(),
{
    let da = dedup_raw(a);
    if b.len() == 0 {
        assert(a + b =~= a);
        assert(da.take(da.len() as int) =~= da);
    } else {
        let b2 = b.drop_last();
        assert((a + b).drop_last() =~= a + b2);
        assert((a + b).last() == b.last());
        lemma_dedup_append(a, b2);
        let d2 = dedup_raw(a + b2);
        let d = dedup_raw(a + b);
        assert(d.take(da.len() as int) =~= da) by {
            assert forall|i: int| 0 <= i < da.len() implies d[i] == d2[i] by {}
            assert forall|i: int| 0 <= i < da.len() implies d2[i] == d2.take(da.len() as int)[i] by {}
        }
        assert forall|i: int| da.len() <= i < d.len() implies {
            &&& b.contains(#[trigger] d[i])
            &&& !has_raw(da, d[i].1)
        } by {
            if i < d2.len() {
                assert(d[i] == d2[i]);
                let k = choose|k: int| 0 <= k < b2.len() && b2[k] == d2[i];
                assert(b[k] == b2[k]);
            } else {
                assert(d[i] == b.last());
                assert(b[b.len() - 1] == d[i]);
                assert(!has_raw(d2, b.last().1));
                if has_raw(da, d[i].1) {
                    let k = choose|k: int| 0 <= k < da.len() && #[trigger] da[k].1 == d[i].1;
                    assert(d2[k] == d2.take(da.len() as int)[k]);
                    assert(d2[k].1 == b.last().1);
                }
            }
        }
    }
}

/// What `decode_all` returns, in order: first the frames found in the bits
/// as given (decoder by decoder, each byte string once), not marked
/// inverted; then the frames found only in the inverted bits, marked
/// inverted. A frame is marked inverted exactly when no decoder found its
/// bytes in the bits as given.
pub proof fn lemma_decode_all_order(decs: Seq<DecoderKind>, bits: Seq<bool>)
    ensures
        ({
            let d = spec_decode_all(decs, bits);
            let a = candidates(decs, bits, false);
            let k = dedup_raw(a).len() as int;
            &&& k <= d.len()
            &&& d.take(k) == dedup_raw(a)
            &&& forall|i: int| 0 <= i < d.len() ==> (!(#[trigger] d[i]).3 <==> i < k)
            &&& forall|i: int| 0 <= i < d.len() ==> (!(#[trigger] d[i]).3 <==> has_raw(a, d[i].1))
        }),
{
    let a = candidates(decs, bits, false);
    let b = candidates(decs, spec_inverted(bits), true);
    let d = spec_decode_all(decs, bits);
    let da = dedup_raw(a);
    let k = da.len() as int;
    lemma_candidates_polarity(decs, bits, false);
    lemma_candidates_polarity(decs, spec_inverted(bits), true);
    lemma_dedup_append(a, b);
    lemma_dedup_raw(a);
    assert forall|i: int| 0 <= i < d.len() implies (!(#[trigger] d[i]).3 <==> i < k) && (!d[i].3 <==> has_raw(a, d[i].1)) by {
        if i < k {
            assert(d[i] == d.take(k)[i]);
            assert(a.contains(da[i]));
            let j = choose|j: int| 0 <= j < a.len() && a[j] == da[i];
            assert(a[j].1 == d[i].1);
        } else {
            let j = choose|j: int| 0 <= j < b.len() && b[j] == d[i];
            assert(b[j].3);
            if has_raw(a, d[i].1) {
                let m = choose|m: int| 0 <= m < a.len() && #[trigger] a[m].1 == d[i].1;
                assert(has_raw(da, a[m].1));
            }
        }
    }
}

} // verus!
