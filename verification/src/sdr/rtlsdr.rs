//! RTL-SDR frequency hopping: the dongle stays on each center for a dwell,
//! then moves to the next center of the list (cyclically), and the new
//! center is published only once the retune has succeeded. Tuning the device
//! and waiting are the application's; when to retune and to what is here.

use vstd::prelude::*;

verus! {

/// What the hopper does at a tick.
#[derive(Clone, Copy, Debug, PartialEq, Eq)]
pub enum HopAction {
    /// Stay on the current center.
    Wait,
    /// Retune the device to this center (Hz).
    Retune(u32),
}

/// The hop schedule of one receiver: its centers, which is current, the
/// dwell, and when the current dwell began (ns on a monotonic clock).
pub struct HopSchedule {
    centers: Vec<u32>,
    index: usize,
    dwell_ns: u64,
    last_ns: u64,
}

/// Time from `from` to `to` in nanoseconds, 0 if `to` is not later.
pub open spec fn hop_elapsed(from: u64, to: u64) -> int {
    if to >= from { to - from } else { 0 }
}

impl HopSchedule {
    pub closed spec fn spec_centers(&self) -> Seq<u32> {
        self.centers@
    }

    pub closed spec fn spec_index(&self) -> int {
        self.index as int
    }

    pub closed spec fn spec_dwell(&self) -> u64 {
        self.dwell_ns
    }

    pub closed spec fn spec_last(&self) -> u64 {
        self.last_ns
    }

    pub open spec fn wf(&self) -> bool {
        &&& self.spec_centers().len() >= 1
        &&& 0 <= self.spec_index() < self.spec_centers().len()
    }

    /// The center the schedule is on.
    pub open spec fn spec_current(&self) -> u32 {
        self.spec_centers()[self.spec_index()]
    }

    /// Start on the first center at `now_ns`.
    pub fn new(centers: Vec<u32>, dwell_ns: u64, now_ns: u64) -> (r: HopSchedule)
        requires
            centers@.len() >= 1,
        ensures
            r.wf(),
            r.spec_centers() == centers@,
            r.spec_index() == 0,
            r.spec_current() == centers@[0],
            r.spec_dwell() == dwell_ns,
            r.spec_last() == now_ns,
    {
        HopSchedule { centers, index: 0, dwell_ns, last_ns: now_ns }
    }

    /// The center the schedule is on.
    pub fn current(&self) -> (r: u32)
        requires
            self.wf(),
        ensures
            r == self.spec_current(),
    {
        self.centers[self.index]
    }

    /// A tick at `now_ns`: once the dwell has passed and there is another
    /// center, move to the next one (cyclically) and start a new dwell;
    /// otherwise wait.
    pub fn on_tick(&mut self, now_ns: u64) -> (a: HopAction)
        requires
            old(self).wf(),
        ensures
            final(self).wf(),
            final(self).spec_centers() == old(self).spec_centers(),
            final(self).spec_dwell() == old(self).spec_dwell(),
            ({
                let len = old(self).spec_centers().len();
                let next = (old(self).spec_index() + 1) % (len as int);
                if len > 1 && hop_elapsed(old(self).spec_last(), now_ns) >= old(self).spec_dwell() {
                    &&& a == HopAction::Retune(old(self).spec_centers()[next])
                    &&& final(self).spec_index() == next
                    &&& final(self).spec_last() == now_ns
                } else {
                    &&& a == HopAction::Wait
                    &&& final(self).spec_index() == old(self).spec_index()
                    &&& final(self).spec_last() == old(self).spec_last()
                }
            }),
    {
        let len = self.centers.len();
        let gap: u64 = if now_ns >= self.last_ns { now_ns - self.last_ns } else { 0 };
        if len > 1 && gap >= self.dwell_ns {
            let next = if self.index + 1 < len { self.index + 1 } else { 0 };
            proof {
                if self.index + 1 < len {
                    vstd::arithmetic::div_mod::lemma_small_mod((self.index + 1) as nat, len as nat);
                } else {
                    vstd::arithmetic::div_mod::lemma_mod_self_0(len as int);
                }
            }
            assert(next as int == (self.index + 1) % (len as int));
            self.index = next;
            self.last_ns = now_ns;
            HopAction::Retune(self.centers[next])
        } else {
            HopAction::Wait
        }
    }

    /// The retune asked for by the last tick has been made, successfully or
    /// not: the new center is published only when it succeeded. The schedule
    /// moves on either way.
    pub fn on_retuned(&self, ok: bool) -> (published: Option<u32>)
        requires
            self.wf(),
        ensures
            published == (if ok { Some(self.spec_current()) } else { None::<u32> }),
    {
        if ok {
            Some(self.centers[self.index])
        } else {
            None
        }
    }
}

} // verus!
