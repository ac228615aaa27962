//! Airspy R2 settings.

use crate::config::AirspyGain;
use vstd::prelude::*;

verus! {

/// An Airspy to open: device serial (first device if absent), tuning, gain.
#[derive(Clone, Copy, Debug)]
pub struct AirspySource {
    pub serial: Option<u64>,
    pub center_hz: u32,
    pub sample_rate: u32,
    pub gain: AirspyGain,
    pub bias_tee: bool,
}

/// The gain calls to make on the device.
#[derive(Clone, Copy, Debug, PartialEq, Eq)]
pub enum GainPlan {
    /// AGCs off, then LNA, mixer and VGA gains, each at most 15.
    Stages { lna: u8, mix: u8, vga: u8 },
    /// The linearity preset, at most 21.
    Linearity(u8),
    /// The sensitivity preset, at most 21.
    Sensitivity(u8),
}

/// A preset gain that names neither a linearity nor a sensitivity value.
#[derive(Clone, Copy, Debug, PartialEq, Eq)]
pub enum GainError {
    Unspecified,
}

pub open spec fn cap(v: u8, max: u8) -> u8 {
    if v > max { max } else { v }
}

pub open spec fn spec_gain_plan(g: AirspyGain) -> Result<GainPlan, GainError> {
    match g {
        AirspyGain::Stages { lna, mix, vga } => Ok(GainPlan::Stages { lna: cap(lna, 15), mix: cap(mix, 15), vga: cap(vga, 15) }),
        AirspyGain::Preset { linearity: Some(l), .. } => Ok(GainPlan::Linearity(cap(l, 21))),
        AirspyGain::Preset { linearity: None, sensitivity: Some(s) } => Ok(GainPlan::Sensitivity(cap(s, 21))),
        AirspyGain::Preset { linearity: None, sensitivity: None } => Err(GainError::Unspecified),
    }
}

fn cap_exec(v: u8, max: u8) -> (r: u8)
    ensures
        r == cap(v, max),
{
    if v > max {
        max
    } else {
        v
    }
}

impl AirspyGain {
    /// How the configured gain is applied: stages are capped at 15, presets
    /// at 21; a linearity preset wins over a sensitivity one.
    pub fn plan(&self) -> (r: Result<GainPlan, GainError>)
        ensures
            r == spec_gain_plan(*self),
    {
        match *self {
            AirspyGain::Stages { lna, mix, vga } => Ok(GainPlan::Stages { lna: cap_exec(lna, 15), mix: cap_exec(mix, 15), vga: cap_exec(vga, 15) }),
            AirspyGain::Preset { linearity: Some(l), .. } => Ok(GainPlan::Linearity(cap_exec(l, 21))),
            AirspyGain::Preset { linearity: None, sensitivity: Some(s) } => Ok(GainPlan::Sensitivity(cap_exec(s, 21))),
            AirspyGain::Preset { linearity: None, sensitivity: None } => Err(GainError::Unspecified),
        }
    }
}

} // verus!
