//! Raw IQ file formats (offline decoding and tests).

use vstd::prelude::*;

verus! {

#[derive(Clone, Copy, Debug, PartialEq, Eq)]
pub enum Format {
    /// unsigned 8-bit I/Q
    Cu8,
    /// signed 16-bit little-endian I/Q
    Cs16,
}

impl Format {
    pub open spec fn spec_bytes_per_sample(self) -> nat {
        match self {
            Format::Cu8 => 2,
            Format::Cs16 => 4,
        }
    }

    /// Bytes per complex sample.
    pub fn bytes_per_sample(&self) -> (r: usize)
        ensures
            r == self.spec_bytes_per_sample(),
    {
        match self {
            Format::Cu8 => 2,
            Format::Cs16 => 4,
        }
    }

    /// Whole complex samples in `bytes` bytes read from a file.
    pub fn samples_in(&self, bytes: usize) -> (r: usize)
        ensures
            r as int == bytes as int / self.spec_bytes_per_sample() as int,
    {
        bytes / self.bytes_per_sample()
    }
}

} // verus!
