//! Readout helpers of the FIND BOOM auto-tuner.

use vstd::prelude::*;

verus! {

/// The short name of one of the eight perceptual bands; every index past
/// the seventh band names the top band.
pub open spec fn band_name(band: int) -> Seq<char> {
    if band == 0 {
        "Sub"@
    } else if band == 1 {
        "Bass"@
    } else if band == 2 {
        "Lo-Mid"@
    } else if band == 3 {
        "Mid"@
    } else if band == 4 {
        "Hi-Mid"@
    } else if band == 5 {
        "Pres"@
    } else if band == 6 {
        "Brill"@
    } else {
        "Air"@
    }
}

pub fn band_label(band: usize) -> (label: &'static str)
    ensures
        label@ == band_name(band as int),
{
    match band {
        0 => "Sub",
        1 => "Bass",
        2 => "Lo-Mid",
        3 => "Mid",
        4 => "Hi-Mid",
        5 => "Pres",
        6 => "Brill",
        _ => "Air",
    }
}

} // verus!
