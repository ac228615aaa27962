//! Decisions of the receiver threads, as state machines the application
//! drives: which band pipeline a block of samples goes to (with a settle
//! window after each retune and a bounded, least-recently-used set of
//! resident band pipelines), how the receiver's sample clock advances, which
//! undecoded-burst examples are let through to the store, and the counters
//! reported per receiver.

use vstd::prelude::*;

verus! {

/// Counters for diagnostics and tests.
#[derive(Clone, Copy, Debug, PartialEq, Eq)]
pub struct PipelineStats {
    pub samples: u64,
    pub bursts: u64,
    pub bursts_lost_from_ring: u64,
    pub demodulated: u64,
    pub decoded_frames: u64,
    /// CPU time per stage (nanoseconds), for profiling.
    pub ns_detect: u64,
    pub ns_extract: u64,
    pub ns_demod: u64,
    pub ns_decode: u64,
}

impl PipelineStats {
    pub open spec fn is_zero(self) -> bool {
        &&& self.samples == 0
        &&& self.bursts == 0
        &&& self.bursts_lost_from_ring == 0
        &&& self.demodulated == 0
        &&& self.decoded_frames == 0
        &&& self.ns_detect == 0
        &&& self.ns_extract == 0
        &&& self.ns_demod == 0
        &&& self.ns_decode == 0
    }

    /// Adding `other`'s event counters keeps every counter in range.
    pub open spec fn can_add_counts(self, other: PipelineStats) -> bool {
        &&& self.samples + other.samples <= u64::MAX
        &&& self.bursts + other.bursts <= u64::MAX
        &&& self.bursts_lost_from_ring + other.bursts_lost_from_ring <= u64::MAX
        &&& self.demodulated + other.demodulated <= u64::MAX
        &&& self.decoded_frames + other.decoded_frames <= u64::MAX
    }

    /// Add another pipeline's event counters (samples, bursts, lost bursts,
    /// demodulated bursts, frames) to these; stage timers are not summed.
    pub fn add_counts(&mut self, other: &PipelineStats)
        requires
            old(self).can_add_counts(*other),
        ensures
            final(self).samples == old(self).samples + other.samples,
            final(self).bursts == old(self).bursts + other.bursts,
            final(self).bursts_lost_from_ring == old(self).bursts_lost_from_ring + other.bursts_lost_from_ring,
            final(self).demodulated == old(self).demodulated + other.demodulated,
            final(self).decoded_frames == old(self).decoded_frames + other.decoded_frames,
            final(self).ns_detect == old(self).ns_detect,
            final(self).ns_extract == old(self).ns_extract,
            final(self).ns_demod == old(self).ns_demod,
            final(self).ns_decode == old(self).ns_decode,
    {
        self.samples = self.samples + other.samples;
        self.bursts = self.bursts + other.bursts;
        self.bursts_lost_from_ring = self.bursts_lost_from_ring + other.bursts_lost_from_ring;
        self.demodulated = self.demodulated + other.demodulated;
        self.decoded_frames = self.decoded_frames + other.decoded_frames;
    }
}

/// What became of one detected burst.
#[derive(Clone, Copy, Debug, PartialEq, Eq)]
pub enum BurstOutcome {
    /// Its samples had already left the ring when it was to be cut out.
    LostFromRing,
    /// Cut out of the ring; `demodulated` if at least one symbol rate sliced
    /// it into symbols, with `frames` frames decoded over all rates.
    Extracted { demodulated: bool, frames: u64 },
}

impl PipelineStats {
    /// Counting burst outcome `o` keeps every counter in range.
    pub open spec fn can_count_burst(self, o: BurstOutcome) -> bool {
        &&& self.bursts < u64::MAX
        &&& match o {
            BurstOutcome::LostFromRing => self.bursts_lost_from_ring < u64::MAX,
            BurstOutcome::Extracted { demodulated, frames } => {
                &&& demodulated ==> self.demodulated < u64::MAX
                &&& self.decoded_frames + frames <= u64::MAX
            },
        }
    }

    /// Count one detected burst with outcome `o`: every burst counts; one
    /// whose samples were gone counts as lost; one that some symbol rate
    /// sliced counts as demodulated once, however many rates did; its
    /// decoded frames are added.
    pub fn count_burst(&mut self, o: BurstOutcome)
        requires
            old(self).can_count_burst(o),
        ensures
            final(self).bursts == old(self).bursts + 1,
            final(self).bursts_lost_from_ring == old(self).bursts_lost_from_ring + (if o is LostFromRing { 1int } else { 0int }),
            final(self).demodulated == old(self).demodulated + (if o matches BurstOutcome::Extracted { demodulated: true, .. } { 1int } else { 0int }),
            final(self).decoded_frames == old(self).decoded_frames + (match o {
                BurstOutcome::Extracted { frames, .. } => frames as int,
                BurstOutcome::LostFromRing => 0int,
            }),
            final(self).samples == old(self).samples,
            final(self).ns_detect == old(self).ns_detect,
            final(self).ns_extract == old(self).ns_extract,
            final(self).ns_demod == old(self).ns_demod,
            final(self).ns_decode == old(self).ns_decode,
    {
        self.bursts = self.bursts + 1;
        match o {
            BurstOutcome::LostFromRing => {
                self.bursts_lost_from_ring = self.bursts_lost_from_ring + 1;
            },
            BurstOutcome::Extracted { demodulated, frames } => {
                if demodulated {
                    self.demodulated = self.demodulated + 1;
                }
                self.decoded_frames = self.decoded_frames + frames;
            },
        }
    }
}

impl Default for PipelineStats {
    fn default() -> (r: Self)
        ensures
            r.is_zero(),
    {
        PipelineStats {
            samples: 0,
            bursts: 0,
            bursts_lost_from_ring: 0,
            demodulated: 0,
            decoded_frames: 0,
            ns_detect: 0,
            ns_extract: 0,
            ns_demod: 0,
            ns_decode: 0,
        }
    }
}

/// The counters of `PipelineStats` that `/stats` reports.
#[derive(Clone, Copy, Debug, PartialEq, Eq)]
pub struct PipelineStatsJson {
    pub bursts: u64,
    pub demodulated: u64,
    pub decoded_frames: u64,
    pub bursts_lost_from_ring: u64,
}

impl PipelineStatsJson {
    pub open spec fn spec_from(s: PipelineStats) -> PipelineStatsJson {
        PipelineStatsJson {
            bursts: s.bursts,
            demodulated: s.demodulated,
            decoded_frames: s.decoded_frames,
            bursts_lost_from_ring: s.bursts_lost_from_ring,
        }
    }

    /// The reported counters of `s`.
    pub fn from_stats(s: PipelineStats) -> (r: PipelineStatsJson)
        ensures
            r == Self::spec_from(s),
    {
        PipelineStatsJson {
            bursts: s.bursts,
            demodulated: s.demodulated,
            decoded_frames: s.decoded_frames,
            bursts_lost_from_ring: s.bursts_lost_from_ring,
        }
    }
}

/// A receiver that has delivered no samples for this long is considered
/// stalled.
pub const STALL_TIMEOUT_SECS: u64 = 15;

/// The receivers that are not delivering: those whose block counter has not
/// advanced for `STALL_TIMEOUT_SECS` (checked from a watchdog thread), and
/// those whose device could not be opened. Both empty means healthy.
#[derive(Clone, Debug)]
pub struct Stalled {
    pub receivers: Vec<String>,
    pub unavailable: Vec<String>,
}

/// The names joined by ", ".
pub open spec fn join_names(names: Seq<Seq<char>>) -> Seq<char>
    decreases names.len(),
{
    if names.len() == 0 {
        Seq::<char>::empty()
    } else if names.len() == 1 {
        names[0]
    } else {
        join_names(names.drop_last()) + ", "@ + names.last()
    }
}

pub open spec fn names_view(v: Seq<String>) -> Seq<Seq<char>> {
    Seq::new(v.len(), |i: int| v[i]@)
}

/// The answer to `GET /health`: `200 "ok\n"` while every receiver is open
/// and delivering, otherwise `503 "stalled: <names>; unavailable: <names>\n"`,
/// each list joined by ", ".
pub open spec fn spec_health(stalled: Seq<Seq<char>>, unavailable: Seq<Seq<char>>) -> (u16, Seq<char>) {
    if stalled.len() == 0 && unavailable.len() == 0 {
        (200u16, "ok\n"@)
    } else {
        (503u16, "stalled: "@ + join_names(stalled) + "; unavailable: "@ + join_names(unavailable) + "\n"@)
    }
}

/// Append `names`, joined by ", ", to `body`.
fn append_joined(body: &mut String, names: &Vec<String>)
    ensures
        final(body)@ == old(body)@ + join_names(names_view(names@)),
{
    proof {
        reveal_strlit(", ");
    }
    let ghost start = body@;
    let ghost ns = names_view(names@);
    let mut i: usize = 0;
    assert(ns.take(0) =~= Seq::<Seq<char>>::empty());
    assert(body@ =~= start + join_names(ns.take(0)));
    while i < names.len()
        invariant
            i <= names@.len(),
            ns == names_view(names@),
            body@ == start + join_names(ns.take(i as int)),
        decreases names@.len() - i,
    {
        proof {
            assert(ns.take(i + 1).drop_last() =~= ns.take(i as int));
            assert(ns.take(i + 1).last() == names@[i as int]@);
        }
        if i > 0 {
            body.append(", ");
        }
        body.append(names[i].as_str());
        proof {
            if i == 0 {
                assert(ns.take(1) =~= seq![ns[0]]);
            }
            assert(body@ =~= start + join_names(ns.take(i + 1)));
        }
        i = i + 1;
    }
    assert(ns.take(i as int) =~= ns);
}

impl Stalled {
    pub fn new() -> (r: Stalled)
        ensures
            r.receivers@.len() == 0,
            r.unavailable@.len() == 0,
    {
        Stalled { receivers: Vec::new(), unavailable: Vec::new() }
    }

    /// Status code and body of the health check.
    pub fn health(&self) -> (r: (u16, String))
        ensures
            (r.0, r.1@) == spec_health(names_view(self.receivers@), names_view(self.unavailable@)),
    {
        proof {
            reveal_strlit("ok\n");
            reveal_strlit("stalled: ");
            reveal_strlit("; unavailable: ");
            reveal_strlit("\n");
        }
        if self.receivers.len() == 0 && self.unavailable.len() == 0 {
            return (200, String::from_str("ok\n"));
        }
        let mut body = String::from_str("stalled: ");
        append_joined(&mut body, &self.receivers);
        body.append("; unavailable: ");
        append_joined(&mut body, &self.unavailable);
        body.append("\n");
        (503, body)
    }
}

/// Per receiver: its name, its block counter when last seen to change, and
/// when that was (ns on a monotonic clock).
pub type WatchView = Seq<(Seq<char>, u64, u64)>;

/// Position of the last entry for receiver `name`, or -1.
pub open spec fn watch_index(w: WatchView, name: Seq<char>) -> int
    decreases w.len(),
{
    if w.len() == 0 {
        -1
    } else if w.last().0 == name {
        w.len() - 1
    } else {
        watch_index(w.drop_last(), name)
    }
}

/// A receiver's entry after reading its counter `c` at `now`: the time of the
/// last change is kept while the counter stands still, and restarts otherwise.
pub open spec fn watch_entry(prev: WatchView, c: (Seq<char>, u64), now: u64) -> (Seq<char>, u64, u64) {
    let k = watch_index(prev, c.0);
    if k >= 0 && prev[k].1 == c.1 {
        (c.0, c.1, prev[k].2)
    } else {
        (c.0, c.1, now)
    }
}

/// The names of the receivers whose counter has stood still for
/// `STALL_TIMEOUT_SECS` at `now`, in order.
pub open spec fn stalled_names(w: WatchView, now: u64) -> Seq<Seq<char>>
    decreases w.len(),
{
    if w.len() == 0 {
        Seq::<Seq<char>>::empty()
    } else {
        let prev = stalled_names(w.drop_last(), now);
        if elapsed(w.last().2, now) >= STALL_TIMEOUT_SECS * 1_000_000_000 { prev.push(w.last().0) } else { prev }
    }
}

pub open spec fn counters_view(cs: Seq<(String, u64)>) -> Seq<(Seq<char>, u64)> {
    Seq::new(cs.len(), |i: int| (cs[i].0@, cs[i].1))
}

/// The watchdog's memory of the receivers' block counters.
pub struct StallWatch {
    seen: Vec<(String, u64, u64)>,
}

proof fn lemma_watch_index(w: WatchView, name: Seq<char>)
    ensures
        -1 <= watch_index(w, name) < w.len(),
        watch_index(w, name) >= 0 ==> w[watch_index(w, name)].0 == name,
        watch_index(w, name) >= 0 ==> forall|i: int| watch_index(w, name) < i < w.len() ==> w[i].0 != name,
        watch_index(w, name) == -1 ==> forall|i: int| 0 <= i < w.len() ==> w[i].0 != name,
    decreases w.len(),
{
    if w.len() > 0 && w.last().0 != name {
        let p = w.drop_last();
        lemma_watch_index(p, name);
        assert forall|i: int| 0 <= i < p.len() implies p[i] == w[i] by {}
    }
}

impl StallWatch {
    pub closed spec fn view(&self) -> WatchView {
        Seq::new(self.seen@.len(), |i: int| (self.seen@[i].0@, self.seen@[i].1, self.seen@[i].2))
    }

    pub fn new() -> (r: StallWatch)
        ensures
            r.view() == Seq::<(Seq<char>, u64, u64)>::empty(),
    {
        let r = StallWatch { seen: Vec::new() };
        assert(r.view() =~= Seq::<(Seq<char>, u64, u64)>::empty());
        r
    }

    /// Position of the last entry for `name`.
    fn find(&self, name: &String) -> (r: Option<usize>)
        ensures
            match r {
                Some(i) => i == watch_index(self.view(), name@) && i < self.seen@.len(),
                None => watch_index(self.view(), name@) == -1,
            },
    {
        let ghost w = self.view();
        proof {
            lemma_watch_index(w, name@);
        }
        let mut i = self.seen.len();
        while i > 0
            invariant
                i <= self.seen@.len(),
                w == self.view(),
                forall|j: int| i <= j < w.len() ==> w[j].0 != name@,
            decreases i,
        {
            if self.seen[i - 1].0 == *name {
                proof {
                    lemma_watch_index(w, name@);
                    let k = watch_index(w, name@);
                    assert(w[i - 1].0 == name@);
                    if k > i - 1 {
                        assert(w[k].0 != name@);
                    }
                }
                return Some(i - 1);
            }
            i = i - 1;
        }
        proof {
            lemma_watch_index(w, name@);
            let k = watch_index(w, name@);
            if k >= 0 {
                assert(w[k].0 != name@);
            }
        }
        None
    }

    /// Read every receiver's block counter at `now_ns` (on a monotonic
    /// clock): the receivers whose counter has not advanced for
    /// `STALL_TIMEOUT_SECS` are stalled; `unavailable` (the receivers whose
    /// device could not be opened) is reported as given.
    pub fn observe(&mut self, counters: &[(String, u64)], unavailable: &Vec<String>, now_ns: u64) -> (r: Stalled)
        ensures
            names_view(r.unavailable@) == names_view(unavailable@),
            final(self).view() == Seq::new(
                counters@.len(),
                |i: int| watch_entry(old(self).view(), counters_view(counters@)[i], now_ns),
            ),
            names_view(r.receivers@) == stalled_names(final(self).view(), now_ns),
    {
        let ghost prev = self.view();
        let ghost cv = counters_view(counters@);
        let mut next: Vec<(String, u64, u64)> = Vec::new();
        let mut stalled: Vec<String> = Vec::new();
        let mut i: usize = 0;
        while i < counters.len()
            invariant
                i <= counters@.len(),
                prev == self.view(),
                cv == counters_view(counters@),
                Seq::new(next@.len(), |k: int| (next@[k].0@, next@[k].1, next@[k].2)) == Seq::new(
                    i as nat,
                    |k: int| watch_entry(prev, cv[k], now_ns),
                ),
                names_view(stalled@) == stalled_names(Seq::new(i as nat, |k: int| watch_entry(prev, cv[k], now_ns)), now_ns),
            decreases counters@.len() - i,
        {
            let name = &counters[i].0;
            let count = counters[i].1;
            let since = match self.find(name) {
                Some(k) => if self.seen[k].1 == count { self.seen[k].2 } else { now_ns },
                None => now_ns,
            };
            let ghost e = watch_entry(prev, cv[i as int], now_ns);
            assert(since == e.2);
            let ghost before = Seq::new(next@.len(), |k: int| (next@[k].0@, next@[k].1, next@[k].2));
            let ghost upto = Seq::new((i + 1) as nat, |k: int| watch_entry(prev, cv[k], now_ns));
            let ghost stalled_before = names_view(stalled@);
            let ghost old_next = next@;
            assert(cv[i as int] == (name@, count));
            assert(e == (name@, count, since));
            next.push((name.clone(), count, since));
            assert forall|k: int| 0 <= k < i + 1 implies (next@[k].0@, next@[k].1, next@[k].2) == upto[k] by {
                if k < i {
                    assert(next@[k] == old_next[k]);
                    assert(before[k] == (old_next[k].0@, old_next[k].1, old_next[k].2));
                }
            }
            assert(Seq::new(next@.len(), |k: int| (next@[k].0@, next@[k].1, next@[k].2)) =~= upto);
            assert(upto.drop_last() =~= Seq::new(i as nat, |k: int| watch_entry(prev, cv[k], now_ns)));
            let gap: u64 = if now_ns >= since { now_ns - since } else { 0 };
            if gap >= STALL_TIMEOUT_SECS * 1_000_000_000 {
                stalled.push(name.clone());
                assert(names_view(stalled@) =~= stalled_before.push(name@));
            } else {
                assert(names_view(stalled@) =~= stalled_before);
            }
            i = i + 1;
        }
        self.seen = next;
        proof {
            assert(self.view() =~= Seq::new(counters@.len(), |k: int| watch_entry(prev, cv[k], now_ns)));
        }
        Stalled { receivers: stalled, unavailable: unavailable.clone() }
    }
}

/// What the receiver thread does with one block of samples.
#[derive(Clone, Copy, Debug, PartialEq, Eq)]
pub enum BlockAction {
    /// Discard it: the tuner is still settling after a retune.
    Settle,
    /// Feed it to the pipeline of band `key`. First drop the pipeline of
    /// band `evict` (if any) and create the one for `key` if `create`; let
    /// the pipeline skip `skip` samples it did not see (the receiver was on
    /// other bands meanwhile); re-anchor its clock to wall time if `reanchor`.
    Process { key: u64, evict: Option<u64>, create: bool, skip: u64, reanchor: bool },
}

/// Re-anchor a pipeline's sample clock to wall time every this many blocks.
pub const ANCHOR_EVERY_BLOCKS: u64 = 64;

/// The receiver thread's bookkeeping: one pipeline per band the receiver
/// visits (each with its own noise floor and sample clock), at most
/// `max_bands` of them resident, evicting the least recently used; a
/// receiver-wide sample clock `global` that counts every sample the SDR
/// produced (dropped ones included); and a settle window of `settle`
/// samples discarded after every change of band.
pub struct BandScheduler {
    global: u64,
    current: Option<u64>,
    settle: u64,
    settle_left: u64,
    blocks: u64,
    max_bands: usize,
    /// Resident bands, least recently used first, each with the value of
    /// `global` up to which its pipeline has seen the stream.
    resident: Vec<(u64, u64)>,
}

/// Position of `key` among the resident bands, or -1.
pub open spec fn band_index(res: Seq<(u64, u64)>, key: u64) -> int
    decreases res.len(),
{
    if res.len() == 0 {
        -1
    } else if res.last().0 == key {
        res.len() - 1
    } else {
        band_index(res.drop_last(), key)
    }
}

pub open spec fn distinct_bands(res: Seq<(u64, u64)>) -> bool {
    forall|i: int, j: int| 0 <= i < j < res.len() ==> res[i].0 != res[j].0
}

proof fn lemma_band_index(res: Seq<(u64, u64)>, key: u64)
    ensures
        -1 <= band_index(res, key) < res.len(),
        band_index(res, key) >= 0 ==> res[band_index(res, key)].0 == key,
        band_index(res, key) == -1 ==> forall|i: int| 0 <= i < res.len() ==> res[i].0 != key,
    decreases res.len(),
{
    if res.len() > 0 && res.last().0 != key {
        let p = res.drop_last();
        lemma_band_index(p, key);
        assert forall|i: int| 0 <= i < p.len() implies p[i] == res[i] by {}
    }
}

/// One block of `n` samples from band `key`, `dropped` samples lost before
/// it, takes the scheduler from `before` to `after` with `action`. The clock
/// counts every sample; a change of band (re)starts the settle window, and
/// blocks inside it are discarded. Otherwise the band's pipeline (created if
/// not resident, evicting the least recently used band when all `max_bands`
/// places are taken) gets the block, after skipping what it did not see,
/// and becomes the most recently used, having seen up to the new clock.
pub open spec fn block_step(before: BandScheduler, dropped: u64, key: u64, n: u64, action: BlockAction, after: BandScheduler) -> bool {
    let retuned = before.spec_current() != Some(key);
    let left = if retuned { before.spec_settle() } else { before.spec_settle_left() };
    let res = before.spec_resident();
    let idx = band_index(res, key);
    let g = before.spec_global() + dropped;
    &&& after.spec_settle() == before.spec_settle()
    &&& after.spec_max_bands() == before.spec_max_bands()
    &&& after.spec_current() == Some(key)
    &&& after.spec_global() == g + n
    &&& if left > 0 {
        &&& action == BlockAction::Settle
        &&& after.spec_settle_left() == (if left > n { left - n } else { 0 })
        &&& after.spec_resident() == res
        &&& after.spec_blocks() == before.spec_blocks()
    } else {
        let full = idx < 0 && res.len() >= before.spec_max_bands();
        let kept = if full { res.drop_first() } else { res };
        let kidx = band_index(kept, key);
        let seen = if kidx >= 0 { kept[kidx].1 as int } else { g };
        &&& after.spec_settle_left() == 0
        &&& after.spec_blocks() == before.spec_blocks() + 1
        &&& action == BlockAction::Process {
            key,
            evict: if full { Some(res[0].0) } else { None },
            create: idx < 0,
            skip: (g - seen) as u64,
            reanchor: before.spec_blocks() % 64 == 0,
        }
        &&& after.spec_resident() == (if kidx >= 0 { kept.remove(kidx) } else { kept }).push((key, (g + n) as u64))
    }
}

impl BandScheduler {
    pub closed spec fn spec_global(&self) -> int {
        self.global as int
    }

    pub closed spec fn spec_current(&self) -> Option<u64> {
        self.current
    }

    pub closed spec fn spec_settle_left(&self) -> u64 {
        self.settle_left
    }

    pub closed spec fn spec_settle(&self) -> u64 {
        self.settle
    }

    pub closed spec fn spec_blocks(&self) -> u64 {
        self.blocks
    }

    pub closed spec fn spec_max_bands(&self) -> usize {
        self.max_bands
    }

    /// Resident bands, least recently used first, with how far each has seen.
    pub closed spec fn spec_resident(&self) -> Seq<(u64, u64)> {
        self.resident@
    }

    pub open spec fn wf(&self) -> bool {
        &&& self.spec_max_bands() >= 1
        &&& self.spec_resident().len() <= self.spec_max_bands()
        &&& distinct_bands(self.spec_resident())
        &&& self.spec_global() <= i64::MAX
        &&& forall|i: int| 0 <= i < self.spec_resident().len() ==> #[trigger] self.spec_resident()[i].1 <= self.spec_global()
    }

    /// A scheduler for a receiver that discards `settle` samples after each
    /// retune and keeps at most `max(max_bands, 1)` band pipelines.
    pub fn new(settle: u64, max_bands: usize) -> (r: BandScheduler)
        ensures
            r.wf(),
            r.spec_global() == 0,
            r.spec_current() is None,
            r.spec_settle() == settle,
            r.spec_settle_left() == 0,
            r.spec_blocks() == 0,
            r.spec_max_bands() == if max_bands > 1 { max_bands } else { 1 },
            r.spec_resident().len() == 0,
    {
        BandScheduler {
            global: 0,
            current: None,
            settle,
            settle_left: 0,
            blocks: 0,
            max_bands: if max_bands > 1 { max_bands } else { 1 },
            resident: Vec::new(),
        }
    }

    /// The receiver-wide sample clock.
    pub fn global(&self) -> (r: u64)
        ensures
            r == self.spec_global(),
    {
        self.global
    }

    /// Blocks processed so far (settle blocks excluded).
    pub fn blocks(&self) -> (r: u64)
        ensures
            r == self.spec_blocks(),
    {
        self.blocks
    }

    /// The resident bands, least recently used first.
    pub fn resident_bands(&self) -> (r: Vec<u64>)
        ensures
            r@ == Seq::new(self.spec_resident().len(), |i: int| self.spec_resident()[i].0),
    {
        let mut v: Vec<u64> = Vec::new();
        let mut i: usize = 0;
        while i < self.resident.len()
            invariant
                i <= self.resident@.len(),
                v@ == Seq::new(i as nat, |k: int| self.resident@[k].0),
            decreases self.resident@.len() - i,
        {
            v.push(self.resident[i].0);
            i = i + 1;
            assert(v@ =~= Seq::new(i as nat, |k: int| self.resident@[k].0));
        }
        v
    }

    /// A block of `n` samples from band `key`, with `dropped_before` samples
    /// lost just before it.
    pub fn on_block(&mut self, dropped_before: u64, key: u64, n: u64) -> (action: BlockAction)
        requires
            old(self).wf(),
            old(self).spec_global() + dropped_before + n <= i64::MAX,
            old(self).spec_blocks() < u64::MAX,
        ensures
            final(self).wf(),
            block_step(*old(self), dropped_before, key, n, action, *final(self)),
    {
        self.global = self.global + dropped_before;
        if self.current != Some(key) {
            self.current = Some(key);
            self.settle_left = self.settle;
        }
        if self.settle_left > 0 {
            self.settle_left = if self.settle_left > n { self.settle_left - n } else { 0 };
            self.global = self.global + n;
            proof {
                assert forall|i: int| 0 <= i < self.resident@.len() implies #[trigger] self.resident@[i].1 <= self.global by {
                    assert(old(self).spec_resident()[i].1 <= old(self).spec_global());
                }
            }
            return BlockAction::Settle;
        }
        let ghost res = self.resident@;
        let ghost g = self.global as int;
        proof {
            lemma_band_index(res, key);
        }
        let idx = self.find(key);
        let mut evict: Option<u64> = None;
        let create = idx.is_none();
        if idx.is_none() && self.resident.len() >= self.max_bands {
            if self.resident.len() > 0 {
                let (old_key, _) = self.resident.remove(0);
                evict = Some(old_key);
            }
        }
        let ghost kept = self.resident@;
        proof {
            assert(kept.len() <= res.len());
            if evict is Some {
                assert(kept =~= res.drop_first());
            }
            lemma_band_index(kept, key);
            assert forall|i: int, j: int| 0 <= i < j < kept.len() implies kept[i].0 != kept[j].0 by {
                if evict is Some {
                    assert(kept[i] == res[i + 1] && kept[j] == res[j + 1]);
                }
            }
            if idx is None {
                assert forall|i: int| 0 <= i < kept.len() implies kept[i].0 != key by {
                    if evict is Some {
                        assert(kept[i] == res[i + 1]);
                    }
                }
            }
        }
        let kidx = idx;
        let seen = match kidx {
            Some(k) => {
                let (_, s) = self.resident.remove(k);
                s
            },
            None => self.global,
        };
        let ghost rest = self.resident@;
        let skip = self.global - seen;
        let reanchor = self.blocks % ANCHOR_EVERY_BLOCKS == 0;
        self.global = self.global + n;
        self.resident.push((key, self.global));
        self.settle_left = 0;
        self.blocks = self.blocks + 1;
        proof {
            assert(idx is Some ==> kept =~= res && band_index(kept, key) == band_index(res, key));
            assert forall|i: int| 0 <= i < self.resident@.len() implies #[trigger] self.resident@[i].1 <= self.global by {
                if i < rest.len() {
                    if kidx is Some {
                        let k = kidx->0 as int;
                        if i < k {
                            assert(rest[i] == kept[i]);
                        } else {
                            assert(rest[i] == kept[i + 1]);
                        }
                    } else {
                        assert(rest[i] == kept[i]);
                    }
                }
            }
            assert forall|i: int, j: int| 0 <= i < j < self.resident@.len() implies self.resident@[i].0 != self.resident@[j].0 by {
                if j == self.resident@.len() - 1 {
                    if kidx is Some {
                        let k = kidx->0 as int;
                        if i < k {
                            assert(rest[i] == kept[i]);
                            assert(kept[i].0 != kept[k].0);
                        } else {
                            assert(rest[i] == kept[i + 1]);
                            assert(kept[i + 1].0 != kept[k].0);
                        }
                    } else {
                        assert(rest[i] == kept[i]);
                    }
                } else if kidx is Some {
                    let k = kidx->0 as int;
                    let a = if i < k { i } else { i + 1 };
                    let b = if j < k { j } else { j + 1 };
                    assert(rest[i] == kept[a]);
                    assert(rest[j] == kept[b]);
                } else {
                    assert(rest[i] == kept[i]);
                    assert(rest[j] == kept[j]);
                }
            }
        }
        BlockAction::Process { key, evict, create, skip, reanchor }
    }

    /// Position of `key` among the resident bands.
    fn find(&self, key: u64) -> (r: Option<usize>)
        ensures
            match r {
                Some(i) => i == band_index(self.resident@, key),
                None => band_index(self.resident@, key) == -1,
            },
    {
        proof {
            lemma_band_index(self.resident@, key);
        }
        let mut i = self.resident.len();
        assert(self.resident@.take(i as int) =~= self.resident@);
        while i > 0
            invariant
                i <= self.resident@.len(),
                band_index(self.resident@, key) == band_index(self.resident@.take(i as int), key),
            decreases i,
        {
            let ghost pre = self.resident@.take(i as int);
            if self.resident[i - 1].0 == key {
                assert(pre.last() == self.resident@[i - 1]);
                return Some(i - 1);
            }
            assert(pre.drop_last() =~= self.resident@.take(i - 1));
            i = i - 1;
        }
        None
    }
}

/// A family not admitted for this many intervals is forgotten at a sweep.
pub const FORGET_AFTER_INTERVALS: u64 = 10;

/// Forgotten families are swept out once more than this many whole seconds
/// have passed since the previous sweep.
pub const SWEEP_AFTER_SECS: u64 = 600;

/// Time from `from` to `to` in nanoseconds, 0 if `to` is not later.
pub open spec fn elapsed(from: u64, to: u64) -> int {
    if to >= from { to - from } else { 0 }
}

/// Families with the time each was last admitted.
pub type FamilyTimes = Seq<(Seq<char>, u64)>;

/// Position of `fam` in `fs`, or -1.
pub open spec fn family_index(fs: FamilyTimes, fam: Seq<char>) -> int
    decreases fs.len(),
{
    if fs.len() == 0 {
        -1
    } else if fs.last().0 == fam {
        fs.len() - 1
    } else {
        family_index(fs.drop_last(), fam)
    }
}

pub open spec fn distinct_families(fs: FamilyTimes) -> bool {
    forall|i: int, j: int| 0 <= i < j < fs.len() ==> fs[i].0 != fs[j].0
}

/// The families admitted less than `horizon` ns before `now`, in order.
pub open spec fn recent_part(fs: FamilyTimes, now: u64, horizon: int) -> FamilyTimes
    decreases fs.len(),
{
    if fs.len() == 0 {
        fs
    } else {
        let prev = recent_part(fs.drop_last(), now, horizon);
        if elapsed(fs.last().1, now) < horizon { prev.push(fs.last()) } else { prev }
    }
}

/// Admission of one example of family `fam` at `now`, with families `fs`
/// last swept at `swept`: whether it is admitted, and the families and sweep
/// time afterwards. With no interval everything is admitted and nothing is
/// recorded. Otherwise a family admitted less than `interval` ago is turned
/// away; an admitted one is recorded at `now`, and when more than
/// `SWEEP_AFTER_SECS` whole seconds have passed since the last sweep, the
/// families not admitted within `FORGET_AFTER_INTERVALS` intervals are
/// forgotten.
pub open spec fn admission_step(fs: FamilyTimes, swept: u64, interval: u64, fam: Seq<char>, now: u64) -> (bool, FamilyTimes, u64) {
    let idx = family_index(fs, fam);
    if interval == 0 {
        (true, fs, swept)
    } else if idx >= 0 && elapsed(fs[idx].1, now) < interval {
        (false, fs, swept)
    } else {
        let m = if idx >= 0 { fs.update(idx, (fam, now)) } else { fs.push((fam, now)) };
        if elapsed(swept, now) / 1_000_000_000 > SWEEP_AFTER_SECS {
            (true, recent_part(m, now, FORGET_AFTER_INTERVALS * interval), now)
        } else {
            (true, m, swept)
        }
    }
}

proof fn lemma_family_index(fs: FamilyTimes, fam: Seq<char>)
    ensures
        -1 <= family_index(fs, fam) < fs.len(),
        family_index(fs, fam) >= 0 ==> fs[family_index(fs, fam)].0 == fam,
        family_index(fs, fam) == -1 ==> forall|i: int| 0 <= i < fs.len() ==> fs[i].0 != fam,
    decreases fs.len(),
{
    if fs.len() > 0 && fs.last().0 != fam {
        let p = fs.drop_last();
        lemma_family_index(p, fam);
        assert forall|i: int| 0 <= i < p.len() implies p[i] == fs[i] by {}
    }
}

proof fn lemma_recent_part(fs: FamilyTimes, now: u64, horizon: int)
    requires
        distinct_families(fs),
    ensures
        distinct_families(recent_part(fs, now, horizon)),
        forall|i: int| 0 <= i < recent_part(fs, now, horizon).len() ==> fs.contains(#[trigger] recent_part(fs, now, horizon)[i]),
    decreases fs.len(),
{
    if fs.len() > 0 {
        let p = fs.drop_last();
        assert(distinct_families(p)) by {
            assert forall|i: int, j: int| 0 <= i < j < p.len() implies p[i].0 != p[j].0 by {
                assert(p[i] == fs[i] && p[j] == fs[j]);
            }
        }
        lemma_recent_part(p, now, horizon);
        let rp = recent_part(p, now, horizon);
        let r = recent_part(fs, now, horizon);
        assert forall|i: int| 0 <= i < r.len() implies fs.contains(#[trigger] r[i]) by {
            if i < rp.len() {
                let j = choose|j: int| 0 <= j < p.len() && p[j] == rp[i];
                assert(fs[j] == p[j]);
            } else {
                assert(fs[fs.len() - 1] == r[i]);
            }
        }
        assert forall|i: int, j: int| 0 <= i < j < r.len() implies r[i].0 != r[j].0 by {
            if j >= rp.len() {
                let k = choose|k: int| 0 <= k < p.len() && p[k] == rp[i];
                assert(fs[k] == p[k]);
                assert(k < fs.len() - 1);
            }
        }
    }
}

/// Receiver-side admission of undecoded-burst examples: at most one example
/// per emitter family per interval reaches the store, so a frequency hopper
/// cannot crowd out everything else. Times are nanoseconds on a monotonic
/// clock.
pub struct FamilyAdmission {
    interval_ns: u64,
    last: Vec<(String, u64)>,
    swept_ns: u64,
}

impl FamilyAdmission {
    pub closed spec fn spec_interval(&self) -> u64 {
        self.interval_ns
    }

    pub closed spec fn spec_swept(&self) -> u64 {
        self.swept_ns
    }

    /// The families seen, with the time each was last admitted.
    pub closed spec fn families(&self) -> FamilyTimes {
        Seq::new(self.last@.len(), |i: int| (self.last@[i].0@, self.last@[i].1))
    }

    pub open spec fn wf(&self) -> bool {
        distinct_families(self.families())
    }

    /// No family seen yet, the first sweep counted from `now_ns`; an interval
    /// of 0 admits everything.
    pub fn new(interval_ns: u64, now_ns: u64) -> (r: FamilyAdmission)
        ensures
            r.wf(),
            r.spec_interval() == interval_ns,
            r.spec_swept() == now_ns,
            r.families() == Seq::<(Seq<char>, u64)>::empty(),
    {
        let r = FamilyAdmission { interval_ns, last: Vec::new(), swept_ns: now_ns };
        assert(r.families() =~= Seq::<(Seq<char>, u64)>::empty());
        r
    }

    /// Whether an example of `family` seen at `now_ns` goes to the store.
    pub fn accept(&mut self, family: String, now_ns: u64) -> (r: bool)
        requires
            old(self).wf(),
        ensures
            final(self).wf(),
            final(self).spec_interval() == old(self).spec_interval(),
            (r, final(self).families(), final(self).spec_swept()) == admission_step(
                old(self).families(),
                old(self).spec_swept(),
                old(self).spec_interval(),
                family@,
                now_ns,
            ),
    {
        if self.interval_ns == 0 {
            return true;
        }
        let ghost fs = self.families();
        let ghost fam = family@;
        proof {
            lemma_family_index(fs, fam);
        }
        let mut j: usize = 0;
        let mut found = false;
        while j < self.last.len() && !found
            invariant
                j <= self.last@.len(),
                fs == self.families(),
                fam == family@,
                distinct_families(fs),
                found ==> j < fs.len() && fs[j as int].0 == fam,
                !found ==> forall|i: int| 0 <= i < j ==> fs[i].0 != fam,
            decreases self.last@.len() - j + (if found { 0int } else { 1int }),
        {
            if self.last[j].0 == family {
                found = true;
            } else {
                j = j + 1;
            }
        }
        proof {
            if found {
                let idx = family_index(fs, fam);
                assert(idx == j) by {
                    if idx != j {
                        assert(fs[idx].0 == fs[j as int].0);
                    }
                }
            } else {
                assert(family_index(fs, fam) == -1);
            }
        }
        if found {
            let t = self.last[j].1;
            let gap: u64 = if now_ns >= t { now_ns - t } else { 0 };
            if gap < self.interval_ns {
                return false;
            }
            self.last.set(j, (family, now_ns));
            proof {
                assert(self.families() =~= fs.update(j as int, (fam, now_ns)));
                assert forall|a: int, b: int| 0 <= a < b < self.families().len() implies self.families()[a].0 != self.families()[b].0 by {
                    assert(fs[a].0 != fs[b].0);
                }
            }
        } else {
            self.last.push((family, now_ns));
            proof {
                assert(self.families() =~= fs.push((fam, now_ns)));
            }
        }
        let ghost m = self.families();
        let since: u64 = if now_ns >= self.swept_ns { now_ns - self.swept_ns } else { 0 };
        if since / 1_000_000_000 > SWEEP_AFTER_SECS {
            let horizon: u128 = (FORGET_AFTER_INTERVALS as u128) * (self.interval_ns as u128);
            let mut kept: Vec<(String, u64)> = Vec::new();
            let mut i: usize = 0;
            while i < self.last.len()
                invariant
                    i <= self.last@.len(),
                    m == self.families(),
                    horizon == FORGET_AFTER_INTERVALS * self.interval_ns,
                    Seq::new(kept@.len(), |k: int| (kept@[k].0@, kept@[k].1)) == recent_part(m.take(i as int), now_ns, horizon as int),
                decreases self.last@.len() - i,
            {
                let t = self.last[i].1;
                let gap: u64 = if now_ns >= t { now_ns - t } else { 0 };
                proof {
                    assert(m.take(i + 1).drop_last() =~= m.take(i as int));
                    assert(m.take(i + 1).last() == m[i as int]);
                }
                let ghost before = Seq::new(kept@.len(), |k: int| (kept@[k].0@, kept@[k].1));
                if (gap as u128) < horizon {
                    let name = self.last[i].0.clone();
                    kept.push((name, t));
                    assert(Seq::new(kept@.len(), |k: int| (kept@[k].0@, kept@[k].1)) =~= before.push(m[i as int]));
                }
                i = i + 1;
            }
            proof {
                assert(m.take(i as int) =~= m);
                lemma_recent_part(m, now_ns, horizon as int);
            }
            self.last = kept;
            self.swept_ns = now_ns;
            proof {
                assert(self.families() =~= recent_part(m, now_ns, horizon as int));
            }
        }
        true
    }
}

// ---------------------------------------------------------------------------
// Laws

/// While the receiver stays on a band, that band's pipeline misses only what
/// the device dropped: a block of the same band right after a processed one
/// goes to the same pipeline, which is neither created nor evicted and skips
/// exactly the samples lost in between.
pub proof fn lemma_staying_on_band_skips_only_drops(
    s0: BandScheduler,
    s1: BandScheduler,
    s2: BandScheduler,
    key: u64,
    d1: u64,
    n1: u64,
    a1: BlockAction,
    d2: u64,
    n2: u64,
    a2: BlockAction,
)
    requires
        s0.wf(),
        block_step(s0, d1, key, n1, a1, s1),
        a1 is Process,
        block_step(s1, d2, key, n2, a2, s2),
    ensures
        a2 == (BlockAction::Process { key, evict: None, create: false, skip: d2, reanchor: s1.spec_blocks() % 64 == 0 }),
{
    let res0 = s0.spec_resident();
    let idx0 = band_index(res0, key);
    let full0 = idx0 < 0 && res0.len() >= s0.spec_max_bands();
    let kept0 = if full0 { res0.drop_first() } else { res0 };
    let kidx0 = band_index(kept0, key);
    let base = if kidx0 >= 0 { kept0.remove(kidx0) } else { kept0 };
    let res1 = s1.spec_resident();
    assert(res1 == base.push((key, s1.spec_global() as u64)));
    assert(res1.last().0 == key);
    assert(band_index(res1, key) == res1.len() - 1);
    assert(res1[res1.len() - 1].1 as int == s1.spec_global());
}

/// An admitted family is held off for the interval: right after an example of
/// a family is let through at `t1`, another example of that family at `t2`,
/// less than the interval later, is turned away.
pub proof fn lemma_family_spacing(fs: FamilyTimes, swept: u64, interval: u64, fam: Seq<char>, t1: u64, t2: u64)
    requires
        distinct_families(fs),
        interval > 0,
        admission_step(fs, swept, interval, fam, t1).0,
        t1 <= t2,
        t2 - t1 < interval,
    ensures
        !admission_step(
            admission_step(fs, swept, interval, fam, t1).1,
            admission_step(fs, swept, interval, fam, t1).2,
            interval,
            fam,
            t2,
        ).0,
{
    lemma_family_index(fs, fam);
    let idx = family_index(fs, fam);
    let m = if idx >= 0 { fs.update(idx, (fam, t1)) } else { fs.push((fam, t1)) };
    let p = if idx >= 0 { idx } else { fs.len() as int };
    assert(m[p] == (fam, t1));
    assert(distinct_families(m)) by {
        assert forall|a: int, b: int| 0 <= a < b < m.len() implies m[a].0 != m[b].0 by {
            if a != p && b != p {
                assert(m[a] == fs[a] && m[b] == fs[b]);
            }
        }
    }
    let after = admission_step(fs, swept, interval, fam, t1).1;
    // the admitted family is listed at `t1` in what the step leaves
    let q = choose|q: int| 0 <= q < after.len() && after[q] == (fam, t1);
    assert(exists|q: int| 0 <= q < after.len() && after[q] == (fam, t1)) by {
        if elapsed(swept, t1) / 1_000_000_000 > SWEEP_AFTER_SECS {
            lemma_recent_part_keeps(m, t1, FORGET_AFTER_INTERVALS * interval, p);
        } else {
            assert(after == m);
        }
    }
    assert(distinct_families(after)) by {
        if elapsed(swept, t1) / 1_000_000_000 > SWEEP_AFTER_SECS {
            lemma_recent_part(m, t1, FORGET_AFTER_INTERVALS * interval);
        }
    }
    lemma_family_index(after, fam);
    let k = family_index(after, fam);
    assert(k == q) by {
        if k != q {
            assert(after[k].0 == after[q].0);
        }
    }
}

/// An entry admitted less than `horizon` ago survives a sweep.
proof fn lemma_recent_part_keeps(fs: FamilyTimes, now: u64, horizon: int, p: int)
    requires
        0 <= p < fs.len(),
        elapsed(fs[p].1, now) < horizon,
    ensures
        exists|q: int| 0 <= q < recent_part(fs, now, horizon).len() && recent_part(fs, now, horizon)[q] == fs[p],
    decreases fs.len(),
{
    let r = recent_part(fs, now, horizon);
    if p == fs.len() - 1 {
        assert(r[r.len() - 1] == fs[p]);
    } else {
        let d = fs.drop_last();
        lemma_recent_part_keeps(d, now, horizon, p);
        let rd = recent_part(d, now, horizon);
        let q = choose|q: int| 0 <= q < rd.len() && rd[q] == d[p];
        assert(r[q] == rd[q]);
    }
}

/// Samples in the first `i` blocks of a run of `(dropped, n)` blocks.
pub open spec fn run_samples(blocks: Seq<(u64, u64)>, i: int) -> int
    decreases i,
{
    if i <= 0 {
        0
    } else {
        run_samples(blocks, i - 1) + blocks[i - 1].1
    }
}

/// Samples and losses in the first `i` blocks of a run.
pub open spec fn run_clock(blocks: Seq<(u64, u64)>, i: int) -> int
    decreases i,
{
    if i <= 0 {
        0
    } else {
        run_clock(blocks, i - 1) + blocks[i - 1].0 + blocks[i - 1].1
    }
}

/// A retune discards the settle window: in a run of blocks from band `key`
/// that starts with a change of band, a block goes to no pipeline exactly
/// when fewer than `settle` samples of the run came before it, so whole
/// blocks are discarded until at least `settle` samples have gone. The
/// receiver's clock advances over every block and every loss all the same.
pub proof fn lemma_settle_window(states: Seq<BandScheduler>, blocks: Seq<(u64, u64)>, actions: Seq<BlockAction>, key: u64)
    requires
        actions.len() == blocks.len(),
        states.len() == blocks.len() + 1,
        states[0].spec_current() != Some(key),
        forall|i: int| 0 <= i < blocks.len() ==> #[trigger] block_step(states[i], blocks[i].0, key, blocks[i].1, actions[i], states[i + 1]),
    ensures
        forall|i: int| 0 <= i < blocks.len() ==> (#[trigger] actions[i] == BlockAction::Settle) == (run_samples(blocks, i) < states[0].spec_settle()),
        states[blocks.len() as int].spec_global() == states[0].spec_global() + run_clock(blocks, blocks.len() as int),
    decreases blocks.len(),
{
    let m = blocks.len() as int;
    let settle = states[0].spec_settle() as int;
    // after i >= 1 blocks of the run: on `key`, settle unchanged, and the
    // window left is what the run has not yet covered
    assert forall|i: int| 1 <= i <= m implies {
        &&& (#[trigger] states[i]).spec_current() == Some(key)
        &&& states[i].spec_settle() == settle
        &&& states[i].spec_settle_left() == (if run_samples(blocks, i) < settle { settle - run_samples(blocks, i) } else { 0 })
        &&& states[i].spec_global() == states[0].spec_global() + run_clock(blocks, i)
    } by {
        lemma_settle_prefix(states, blocks, actions, key, i);
    }
    assert forall|i: int| 0 <= i < m implies (#[trigger] actions[i] == BlockAction::Settle) == (run_samples(blocks, i) < settle) by {
        assert(block_step(states[i], blocks[i].0, key, blocks[i].1, actions[i], states[i + 1]));
        if i > 0 {
            lemma_settle_prefix(states, blocks, actions, key, i);
        }
    }
    if m > 0 {
        lemma_settle_prefix(states, blocks, actions, key, m);
    }
}

proof fn lemma_settle_prefix(states: Seq<BandScheduler>, blocks: Seq<(u64, u64)>, actions: Seq<BlockAction>, key: u64, i: int)
    requires
        actions.len() == blocks.len(),
        states.len() == blocks.len() + 1,
        states[0].spec_current() != Some(key),
        forall|t: int| 0 <= t < blocks.len() ==> #[trigger] block_step(states[t], blocks[t].0, key, blocks[t].1, actions[t], states[t + 1]),
        1 <= i <= blocks.len(),
    ensures
        states[i].spec_current() == Some(key),
        states[i].spec_settle() == states[0].spec_settle(),
        states[i].spec_settle_left() == (if run_samples(blocks, i) < states[0].spec_settle() {
            states[0].spec_settle() - run_samples(blocks, i)
        } else {
            0
        }),
        states[i].spec_global() == states[0].spec_global() + run_clock(blocks, i),
    decreases i,
{
    let t = i - 1;
    assert(block_step(states[t], blocks[t].0, key, blocks[t].1, actions[t], states[t + 1]));
    assert(run_samples(blocks, i) == run_samples(blocks, t) + blocks[t].1);
    assert(run_clock(blocks, i) == run_clock(blocks, t) + blocks[t].0 + blocks[t].1);
    if i > 1 {
        lemma_settle_prefix(states, blocks, actions, key, t);
        assert(run_samples(blocks, t) >= 0) by {
            lemma_run_samples_nonneg(blocks, t);
        }
    } else {
        assert(run_samples(blocks, 0) == 0);
        assert(run_clock(blocks, 0) == 0);
    }
}

proof fn lemma_run_samples_nonneg(blocks: Seq<(u64, u64)>, i: int)
    ensures
        run_samples(blocks, i) >= 0,
    decreases i,
{
    if i > 0 {
        lemma_run_samples_nonneg(blocks, i - 1);
    }
}

} // verus!
