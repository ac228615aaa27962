//! sensormon-core: everything between demodulated bits and typed sensor
//! events, as pure functions and explicit state machines. No I/O, no threads,
//! no globals, no floating point: quantities that the sensors transmit in
//! fixed steps (0.1 °C, 0.25 psi, …) are carried as exact integers in those
//! steps, with the step in the field name.

pub mod bits;
pub mod chirps;
pub mod config;
pub mod crc;
pub mod dsp;
pub mod event;
pub mod iqfile;
pub mod merge;
pub mod protocol;
pub mod runtime;
pub mod sdr;
pub mod source;
pub mod totals;
pub mod units;

use vstd::prelude::*;

verus! {

} // verus!
