//! Unit newtypes for the integer quantities of a sample stream.

use vstd::prelude::*;

verus! {

/// Samples per second of a stream.
#[derive(Clone, Copy, Debug, PartialEq, Eq, PartialOrd, Ord, Hash)]
pub struct SampleRate(pub u32);

/// Absolute position in a receiver's sample stream, counted from stream start.
#[derive(Clone, Copy, Debug, PartialEq, Eq, PartialOrd, Ord, Hash)]
pub struct SampleIndex(pub u64);

impl SampleIndex {
    /// `n` samples later (earlier for negative `n`), clamped at the stream
    /// start. The index is taken as a signed 64-bit number, as the stream
    /// arithmetic is done in `i64`; the sum must fit in `i64`.
    pub fn offset(self, n: i64) -> (r: SampleIndex)
        requires
            i64::MIN <= (self.0 as i64) + n <= i64::MAX,
        ensures
            r.0 == (if (self.0 as i64) + n < 0 { 0 } else { (self.0 as i64) + n }),
    {
        let v = self.0 as i64 + n;
        if v < 0 {
            SampleIndex(0)
        } else {
            SampleIndex(v as u64)
        }
    }

    /// Samples from `self` to `later`, 0 if `later` is not later.
    pub fn distance_to(self, later: SampleIndex) -> (r: u64)
        ensures
            r == (if later.0 >= self.0 { later.0 - self.0 } else { 0 }),
    {
        if later.0 >= self.0 {
            later.0 - self.0
        } else {
            0
        }
    }
}

} // verus!
