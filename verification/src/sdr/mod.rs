//! SDR front ends: the settings decided before the vendor library is called.

pub mod airspy;
pub mod rtlsdr;
