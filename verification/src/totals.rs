//! The pipeline counters a receiver reports: those of the band pipelines it
//! still holds, plus those of every band pipeline it has evicted. Evicting a
//! band folds its counters into the evicted part, so the totals a receiver
//! reports never go down.

use vstd::prelude::*;
use crate::runtime::PipelineStats;

verus! {

/// The `k`-th event counter of `s`: samples, bursts, bursts lost from the
/// ring, demodulated bursts, decoded frames (for `k` from 0 to 4).
pub open spec fn counter(s: PipelineStats, k: int) -> int {
    if k == 0 {
        s.samples as int
    } else if k == 1 {
        s.bursts as int
    } else if k == 2 {
        s.bursts_lost_from_ring as int
    } else if k == 3 {
        s.demodulated as int
    } else {
        s.decoded_frames as int
    }
}

/// The `k`-th counter summed over the resident bands.
pub open spec fn band_sum(bands: Seq<(u64, PipelineStats)>, k: int) -> int
    decreases bands.len(),
{
    if bands.len() == 0 {
        0
    } else {
        band_sum(bands.drop_last(), k) + counter(bands.last().1, k)
    }
}

/// Position of band `key` among the resident bands, or -1.
pub open spec fn stats_index(bands: Seq<(u64, PipelineStats)>, key: u64) -> int
    decreases bands.len(),
{
    if bands.len() == 0 {
        -1
    } else if bands.last().0 == key {
        bands.len() - 1
    } else {
        stats_index(bands.drop_last(), key)
    }
}

/// The `k`-th counter of band `key`'s pipeline, 0 if the band is not resident.
pub open spec fn resident_counter(bands: Seq<(u64, PipelineStats)>, key: u64, k: int) -> int {
    let i = stats_index(bands, key);
    if i >= 0 {
        counter(bands[i].1, k)
    } else {
        0
    }
}

/// Band `key`'s pipeline may report `st`: no counter has gone down, and the
/// receiver's totals stay in range.
pub open spec fn may_update(t: ReceiverTotals, key: u64, st: PipelineStats) -> bool {
    forall|k: int|
        0 <= k < 5 ==> {
            &&& resident_counter(t.bands(), key, k) <= #[trigger] counter(st, k)
            &&& t.reported(k) - resident_counter(t.bands(), key, k) + counter(st, k) <= u64::MAX
        }
}

/// What a receiver reports: the counters of its evicted band pipelines,
/// folded together, and the latest counters of each resident one, one entry
/// per band.
pub struct ReceiverTotals {
    evicted: PipelineStats,
    bands: Vec<(u64, PipelineStats)>,
}

impl ReceiverTotals {
    /// The resident bands with their latest counters.
    pub closed spec fn bands(&self) -> Seq<(u64, PipelineStats)> {
        self.bands@
    }

    /// The `k`-th counter the receiver reports.
    pub closed spec fn reported(&self, k: int) -> int {
        counter(self.evicted, k) + band_sum(self.bands@, k)
    }

    pub closed spec fn wf(&self) -> bool {
        &&& forall|i: int, j: int|
            0 <= i < j < self.bands@.len() ==> self.bands@[i].0 != self.bands@[j].0
        &&& forall|k: int| 0 <= k < 5 ==> #[trigger] self.reported(k) <= u64::MAX
    }

    /// Nothing counted yet, no band resident.
    pub fn new() -> (r: ReceiverTotals)
        ensures
            r.wf(),
            r.bands() == Seq::<(u64, PipelineStats)>::empty(),
            forall|k: int| 0 <= k < 5 ==> #[trigger] r.reported(k) == 0,
    {
        ReceiverTotals { evicted: PipelineStats::default(), bands: Vec::new() }
    }

    /// Record the latest counters `st` of band `key`'s pipeline (a new band
    /// if it is not resident). Refused, with nothing changed, when a counter
    /// would go down or a total would leave the range of `u64`; so the
    /// reported totals never decrease.
    pub fn update(&mut self, key: u64, st: PipelineStats) -> (ok: bool)
        requires
            old(self).wf(),
        ensures
            final(self).wf(),
            ok == may_update(*old(self), key, st),
            ok ==> final(self).bands() == (if stats_index(old(self).bands(), key) >= 0 {
                old(self).bands().update(stats_index(old(self).bands(), key), (key, st))
            } else {
                old(self).bands().push((key, st))
            }),
            ok ==> forall|k: int|
                0 <= k < 5 ==> #[trigger] final(self).reported(k) == old(self).reported(k)
                    - resident_counter(old(self).bands(), key, k) + counter(st, k),
            !ok ==> *final(self) == *old(self),
            forall|k: int| 0 <= k < 5 ==> #[trigger] old(self).reported(k) <= final(self).reported(k),
    {
        let ghost b0 = self.bands@;
        proof {
            lemma_stats_index(b0, key);
        }
        let idx = self.find(key);
        let prev = match idx {
            Some(i) => self.bands[i].1,
            None => PipelineStats::default(),
        };
        assert forall|k: int| 0 <= k < 5 implies #[trigger] counter(prev, k) == resident_counter(b0, key, k) by {}
        let tot = self.total();
        let grows = prev.samples <= st.samples && prev.bursts <= st.bursts
            && prev.bursts_lost_from_ring <= st.bursts_lost_from_ring
            && prev.demodulated <= st.demodulated && prev.decoded_frames <= st.decoded_frames;
        if !grows {
            proof {
                if may_update(*self, key, st) {
                    assert(counter(st, 0) >= counter(prev, 0));
                    assert(counter(st, 1) >= counter(prev, 1));
                    assert(counter(st, 2) >= counter(prev, 2));
                    assert(counter(st, 3) >= counter(prev, 3));
                    assert(counter(st, 4) >= counter(prev, 4));
                }
            }
            return false;
        }
        let fits = tot.samples <= u64::MAX - (st.samples - prev.samples)
            && tot.bursts <= u64::MAX - (st.bursts - prev.bursts)
            && tot.bursts_lost_from_ring <= u64::MAX - (st.bursts_lost_from_ring - prev.bursts_lost_from_ring)
            && tot.demodulated <= u64::MAX - (st.demodulated - prev.demodulated)
            && tot.decoded_frames <= u64::MAX - (st.decoded_frames - prev.decoded_frames);
        if !fits {
            proof {
                if may_update(*self, key, st) {
                    assert(counter(tot, 0) == self.reported(0));
                    assert(counter(tot, 1) == self.reported(1));
                    assert(counter(tot, 2) == self.reported(2));
                    assert(counter(tot, 3) == self.reported(3));
                    assert(counter(tot, 4) == self.reported(4));
                    assert(counter(st, 0) >= counter(prev, 0));
                    assert(counter(st, 1) >= counter(prev, 1));
                    assert(counter(st, 2) >= counter(prev, 2));
                    assert(counter(st, 3) >= counter(prev, 3));
                    assert(counter(st, 4) >= counter(prev, 4));
                }
            }
            return false;
        }
        assert forall|k: int| 0 <= k < 5 implies {
            &&& resident_counter(b0, key, k) <= #[trigger] counter(st, k)
            &&& self.reported(k) - resident_counter(b0, key, k) + counter(st, k) <= u64::MAX
        } by {
            assert(counter(tot, k) == self.reported(k));
            assert(counter(prev, k) == resident_counter(b0, key, k));
        }
        match idx {
            Some(i) => {
                self.bands.set(i, (key, st));
                proof {
                    lemma_sum_update(b0, i as int, (key, st));
                    assert forall|a: int, c: int|
                        0 <= a < c < self.bands@.len() implies self.bands@[a].0 != self.bands@[c].0 by {
                        assert(self.bands@[a].0 == b0[a].0);
                        assert(self.bands@[c].0 == b0[c].0);
                    }
                }
            },
            None => {
                self.bands.push((key, st));
                proof {
                    assert(self.bands@.drop_last() =~= b0);
                    assert forall|a: int, c: int|
                        0 <= a < c < self.bands@.len() implies self.bands@[a].0 != self.bands@[c].0 by {
                        if c < b0.len() {
                            assert(self.bands@[a] == b0[a]);
                            assert(self.bands@[c] == b0[c]);
                        } else {
                            assert(self.bands@[a] == b0[a]);
                        }
                    }
                }
            },
        }
        assert forall|k: int| 0 <= k < 5 implies #[trigger] self.reported(k) <= u64::MAX by {
            assert(counter(st, k) >= counter(prev, k));
        }
        true
    }

    /// Drop band `key`'s pipeline, folding its counters into the evicted
    /// ones: the reported totals stay exactly as they were. Nothing changes
    /// if the band is not resident.
    pub fn evict(&mut self, key: u64)
        requires
            old(self).wf(),
        ensures
            final(self).wf(),
            final(self).bands() == (if stats_index(old(self).bands(), key) >= 0 {
                old(self).bands().remove(stats_index(old(self).bands(), key))
            } else {
                old(self).bands()
            }),
            forall|k: int| 0 <= k < 5 ==> #[trigger] final(self).reported(k) == old(self).reported(k),
    {
        let ghost b0 = self.bands@;
        let ghost t0 = *self;
        proof {
            lemma_stats_index(b0, key);
        }
        match self.find(key) {
            Some(i) => {
                proof {
                    lemma_sum_remove(b0, i as int);
                    assert forall|k: int| 0 <= k < 5 implies counter(self.evicted, k) + #[trigger] counter(b0[i as int].1, k) <= u64::MAX by {
                        lemma_sum_nonneg(b0.remove(i as int), k);
                        assert(self.reported(k) <= u64::MAX);
                    }
                    assert(counter(self.evicted, 0) + counter(b0[i as int].1, 0) <= u64::MAX);
                    assert(counter(self.evicted, 1) + counter(b0[i as int].1, 1) <= u64::MAX);
                    assert(counter(self.evicted, 2) + counter(b0[i as int].1, 2) <= u64::MAX);
                    assert(counter(self.evicted, 3) + counter(b0[i as int].1, 3) <= u64::MAX);
                    assert(counter(self.evicted, 4) + counter(b0[i as int].1, 4) <= u64::MAX);
                }
                let (_, st) = self.bands.remove(i);
                self.evicted.add_counts(&st);
                proof {
                    assert forall|k: int| 0 <= k < 5 implies #[trigger] self.reported(k) == t0.reported(k) by {
                        assert(counter(self.evicted, k) == counter(t0.evicted, k) + counter(st, k));
                    }
                    assert forall|k: int| 0 <= k < 5 implies #[trigger] self.reported(k) <= u64::MAX by {
                        assert(self.reported(k) == t0.reported(k));
                    }
                    assert forall|a: int, c: int|
                        0 <= a < c < self.bands@.len() implies self.bands@[a].0 != self.bands@[c].0 by {
                        if a >= i {
                            assert(self.bands@[a] == b0[a + 1]);
                        } else {
                            assert(self.bands@[a] == b0[a]);
                        }
                        if c >= i {
                            assert(self.bands@[c] == b0[c + 1]);
                        } else {
                            assert(self.bands@[c] == b0[c]);
                        }
                    }
                }
            },
            None => {},
        }
    }

    /// The counters the receiver reports; stage timers are not summed and
    /// read 0.
    pub fn total(&self) -> (r: PipelineStats)
        requires
            self.wf(),
        ensures
            forall|k: int| 0 <= k < 5 ==> #[trigger] counter(r, k) == self.reported(k),
            r.ns_detect == 0,
            r.ns_extract == 0,
            r.ns_demod == 0,
            r.ns_decode == 0,
    {
        let mut acc = self.evicted;
        acc.ns_detect = 0;
        acc.ns_extract = 0;
        acc.ns_demod = 0;
        acc.ns_decode = 0;
        let mut i: usize = 0;
        assert(self.bands@.take(0) =~= Seq::<(u64, PipelineStats)>::empty());
        while i < self.bands.len()
            invariant
                self.wf(),
                i <= self.bands@.len(),
                acc.ns_detect == 0,
                acc.ns_extract == 0,
                acc.ns_demod == 0,
                acc.ns_decode == 0,
                forall|k: int| 0 <= k < 5 ==> #[trigger] counter(acc, k) == counter(self.evicted, k) + band_sum(self.bands@.take(i as int), k),
            decreases self.bands@.len() - i,
        {
            let ghost pre = self.bands@.take(i as int);
            let ghost next = self.bands@.take(i + 1);
            assert(next.drop_last() =~= pre);
            assert forall|k: int| 0 <= k < 5 implies #[trigger] counter(acc, k) + counter(self.bands@[i as int].1, k) <= u64::MAX by {
                lemma_sum_prefix(self.bands@, i + 1, k);
                assert(self.reported(k) <= u64::MAX);
            }
            assert(counter(acc, 0) + counter(self.bands@[i as int].1, 0) <= u64::MAX);
            assert(counter(acc, 1) + counter(self.bands@[i as int].1, 1) <= u64::MAX);
            assert(counter(acc, 2) + counter(self.bands@[i as int].1, 2) <= u64::MAX);
            assert(counter(acc, 3) + counter(self.bands@[i as int].1, 3) <= u64::MAX);
            assert(counter(acc, 4) + counter(self.bands@[i as int].1, 4) <= u64::MAX);
            acc.add_counts(&self.bands[i].1);
            i = i + 1;
        }
        assert(self.bands@.take(self.bands@.len() as int) =~= self.bands@);
        acc
    }

    /// Position of band `key` among the resident bands.
    fn find(&self, key: u64) -> (r: Option<usize>)
        ensures
            match r {
                Some(i) => i == stats_index(self.bands@, key),
                None => stats_index(self.bands@, key) == -1,
            },
    {
        proof {
            lemma_stats_index(self.bands@, key);
        }
        let mut i = self.bands.len();
        assert(self.bands@.take(i as int) =~= self.bands@);
        while i > 0
            invariant
                i <= self.bands@.len(),
                stats_index(self.bands@, key) == stats_index(self.bands@.take(i as int), key),
            decreases i,
        {
            let ghost pre = self.bands@.take(i as int);
            if self.bands[i - 1].0 == key {
                assert(pre.last() == self.bands@[i - 1]);
                return Some(i - 1);
            }
            assert(pre.drop_last() =~= self.bands@.take(i - 1));
            i = i - 1;
        }
        None
    }
}

proof fn lemma_stats_index(bands: Seq<(u64, PipelineStats)>, key: u64)
    ensures
        -1 <= stats_index(bands, key) < bands.len(),
        stats_index(bands, key) >= 0 ==> bands[stats_index(bands, key)].0 == key,
        stats_index(bands, key) == -1 ==> forall|i: int| 0 <= i < bands.len() ==> bands[i].0 != key,
    decreases bands.len(),
{
    if bands.len() > 0 && bands.last().0 != key {
        let p = bands.drop_last();
        lemma_stats_index(p, key);
        assert forall|i: int| 0 <= i < p.len() implies p[i] == bands[i] by {}
    }
}

proof fn lemma_sum_nonneg(bands: Seq<(u64, PipelineStats)>, k: int)
    ensures
        band_sum(bands, k) >= 0,
    decreases bands.len(),
{
    if bands.len() > 0 {
        lemma_sum_nonneg(bands.drop_last(), k);
    }
}

/// A prefix of the resident bands sums to no more than all of them.
proof fn lemma_sum_prefix(bands: Seq<(u64, PipelineStats)>, i: int, k: int)
    requires
        0 <= i <= bands.len(),
    ensures
        band_sum(bands.take(i), k) <= band_sum(bands, k),
    decreases bands.len(),
{
    if i == bands.len() {
        assert(bands.take(i) =~= bands);
    } else {
        let p = bands.drop_last();
        assert(p.take(i) =~= bands.take(i));
        lemma_sum_prefix(p, i, k);
    }
}

proof fn lemma_sum_update(bands: Seq<(u64, PipelineStats)>, i: int, x: (u64, PipelineStats))
    requires
        0 <= i < bands.len(),
    ensures
        forall|k: int| #[trigger] band_sum(bands.update(i, x), k) == band_sum(bands, k) - counter(bands[i].1, k) + counter(x.1, k),
    decreases bands.len(),
{
    let u = bands.update(i, x);
    if i == bands.len() - 1 {
        assert(u.drop_last() =~= bands.drop_last());
    } else {
        let p = bands.drop_last();
        assert(u.drop_last() =~= p.update(i, x));
        lemma_sum_update(p, i, x);
    }
    assert forall|k: int| #[trigger] band_sum(u, k) == band_sum(bands, k) - counter(bands[i].1, k) + counter(x.1, k) by {
        assert(band_sum(u, k) == band_sum(u.drop_last(), k) + counter(u.last().1, k));
        assert(band_sum(bands, k) == band_sum(bands.drop_last(), k) + counter(bands.last().1, k));
    }
}

proof fn lemma_sum_remove(bands: Seq<(u64, PipelineStats)>, i: int)
    requires
        0 <= i < bands.len(),
    ensures
        forall|k: int| #[trigger] band_sum(bands.remove(i), k) == band_sum(bands, k) - counter(bands[i].1, k),
    decreases bands.len(),
{
    let r = bands.remove(i);
    if i == bands.len() - 1 {
        assert(r =~= bands.drop_last());
    } else {
        let p = bands.drop_last();
        assert(r.drop_last() =~= p.remove(i));
        assert(r.last() == bands.last());
        lemma_sum_remove(p, i);
        assert forall|k: int| #[trigger] band_sum(r, k) == band_sum(bands, k) - counter(bands[i].1, k) by {
            assert(band_sum(r, k) == band_sum(r.drop_last(), k) + counter(r.last().1, k));
        }
    }
    assert forall|k: int| #[trigger] band_sum(r, k) == band_sum(bands, k) - counter(bands[i].1, k) by {
        assert(band_sum(bands, k) == band_sum(bands.drop_last(), k) + counter(bands.last().1, k));
    }
}

} // verus!
