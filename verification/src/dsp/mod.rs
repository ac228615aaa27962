//! Signal-processing bookkeeping. The signal processing proper (FFT burst
//! detection, filtering, FSK demodulation) works in floating point and lives
//! in the application; what it decides on integers (the cutting of the stream
//! into hops, the sample history a burst is cut out of, the grouping of hot
//! spectrum bins) is here.

pub mod hops;
pub mod regions;
pub mod ring;
