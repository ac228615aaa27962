//! Sample hand-off bookkeeping. Each source delivers blocks to a bounded
//! channel; a full channel drops the block rather than stalling the USB
//! callback, and the loss is reported with the next block that gets through.

use vstd::prelude::*;

verus! {

/// Samples lost since the last block that reached the receiver thread.
pub struct DropAccount {
    pending_drop: u64,
}

impl DropAccount {
    pub closed spec fn pending(&self) -> u64 {
        self.pending_drop
    }

    pub fn new() -> (r: DropAccount)
        ensures
            r.pending() == 0,
    {
        DropAccount { pending_drop: 0 }
    }

    /// How many samples to report as lost just before a block, when the
    /// device itself says it lost `device_dropped` samples before it.
    pub fn dropped_before(&self, device_dropped: u64) -> (r: u64)
        requires
            self.pending() + device_dropped <= u64::MAX,
        ensures
            r == self.pending() + device_dropped,
    {
        self.pending_drop + device_dropped
    }

    /// The block of `n` samples, which the device reported `device_dropped`
    /// lost samples just before, was delivered, or was dropped for want of
    /// room: delivery clears the loss (it was reported with the block), a
    /// drop adds the device's loss and the block's own samples to it.
    pub fn record(&mut self, delivered: bool, device_dropped: u64, n: u64)
        requires
            delivered || old(self).pending() + device_dropped + n <= u64::MAX,
        ensures
            final(self).pending() == if delivered { 0 } else { old(self).pending() + device_dropped + n },
    {
        if delivered {
            self.pending_drop = 0;
        } else {
            self.pending_drop = self.pending_drop + device_dropped + n;
        }
    }
}

} // verus!
