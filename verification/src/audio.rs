//! Modes and states shared by the signal-processing engine.

use vstd::prelude::*;

verus! {

/// Number of perceptual frequency bands the spectrum is split into.
pub const NUM_BANDS: usize = 8;

/// How the trigger magnitude is derived from audio energy.
#[derive(Clone, Copy, Debug, PartialEq, Eq, Structural)]
pub enum TriggerMode {
    /// Intensity scales continuously with energy above the threshold.
    Dynamic,
    /// A set level whenever sound passes the noise gate, nothing otherwise.
    Binary,
    /// A blend of the dynamic and binary magnitudes.
    Hybrid,
}

impl Default for TriggerMode {
    fn default() -> (m: Self)
        ensures
            m == TriggerMode::Dynamic,
    {
        TriggerMode::Dynamic
    }
}

/// Which part of the spectrum feeds the trigger.
#[derive(Clone, Copy, Debug, PartialEq, Eq, Structural)]
pub enum FrequencyMode {
    /// The full audible spectrum, weighted toward low frequencies.
    Full,
    /// Only frequencies below the target frequency.
    LowPass,
    /// Only frequencies above the target frequency.
    HighPass,
    /// A narrow band around the target frequency.
    BandPass,
}

impl Default for FrequencyMode {
    fn default() -> (m: Self)
        ensures
            m == FrequencyMode::Full,
    {
        FrequencyMode::Full
    }
}

/// Shape of the long-cycle escalation of the climax engine.
#[derive(Clone, Copy, Debug, PartialEq, Eq, Structural)]
pub enum ClimaxPattern {
    /// Smooth continuous rise toward the end of the cycle.
    Wave,
    /// Plateaus followed by jumps.
    Stairs,
    /// Aggressive ramp in the final third.
    Surge,
}

impl Default for ClimaxPattern {
    fn default() -> (p: Self)
        ensures
            p == ClimaxPattern::Wave,
    {
        ClimaxPattern::Wave
    }
}

/// States of the ADSR envelope state machine.
#[derive(Clone, Copy, Debug, PartialEq, Eq, Structural)]
pub enum EnvelopeState {
    Idle,
    Attack,
    Decay,
    Sustain,
    Release,
}

} // verus!
