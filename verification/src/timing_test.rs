//! Decisions of the audible end-to-end timing test: which groove plays and
//! when a running test must stop because the playback route changed.

use crate::audio_source::AudioSource;
use vstd::prelude::*;

verus! {

/// Beat-aligned loops the timing test can play.
#[derive(Clone, Copy, Debug, PartialEq, Eq, Structural)]
pub enum Groove {
    WetFloorBass,
    TileRoomThrob,
    HowLongYouLast,
}

pub open spec fn groove_name(g: Groove) -> Seq<char> {
    match g {
        Groove::WetFloorBass => "Wet Floor Bass"@,
        Groove::TileRoomThrob => "Tile Room Throb"@,
        Groove::HowLongYouLast => "How Long You Last"@,
    }
}

pub open spec fn groove_details(g: Groove) -> Seq<char> {
    match g {
        Groove::WetFloorBass => "Around 00:55 \u{b7} four bars \u{b7} about 126.6 BPM"@,
        Groove::TileRoomThrob => "Around 00:38 \u{b7} four bars \u{b7} 125 BPM"@,
        Groove::HowLongYouLast => "Around 01:30 \u{b7} four bars \u{b7} about 126 BPM"@,
    }
}

impl Groove {
    pub const ALL: [Groove; 3] = [Groove::WetFloorBass, Groove::TileRoomThrob, Groove::HowLongYouLast];

    pub fn name(self) -> (n: &'static str)
        ensures
            n@ == groove_name(self),
    {
        match self {
            Groove::WetFloorBass => "Wet Floor Bass",
            Groove::TileRoomThrob => "Tile Room Throb",
            Groove::HowLongYouLast => "How Long You Last",
        }
    }

    pub fn details(self) -> (d: &'static str)
        ensures
            d@ == groove_details(self),
    {
        match self {
            Groove::WetFloorBass => "Around 00:55 \u{b7} four bars \u{b7} about 126.6 BPM",
            Groove::TileRoomThrob => "Around 00:38 \u{b7} four bars \u{b7} 125 BPM",
            Groove::HowLongYouLast => "Around 01:30 \u{b7} four bars \u{b7} about 126 BPM",
        }
    }
}

/// Whether a running test must stop: it plays into `endpoint`, and the
/// selected playback route now resolves to another endpoint or to none.
pub open spec fn route_change_stops(running: bool, source: Option<AudioSource>, endpoint: Option<Seq<char>>) -> bool {
    running && match (source, endpoint) {
        (Some(s), Some(e)) => s.id@ != e,
        (None, None) => false,
        _ => true,
    }
}

/// The decision of the test's route check: stop when the selected route no
/// longer resolves to the endpoint the running test plays into.
pub fn route_changed(running: bool, source: Option<&AudioSource>, endpoint: Option<&str>) -> (stop: bool)
    ensures
        stop == route_change_stops(
            running,
            match source {
                Some(s) => Some(*s),
                None => None,
            },
            match endpoint {
                Some(e) => Some(e@),
                None => None,
            },
        ),
        stop ==> running,
{
    if !running {
        return false;
    }
    match (source, endpoint) {
        (Some(s), Some(e)) => {
            let wanted = e.to_owned();
            !(s.id == wanted)
        },
        (None, None) => false,
        _ => true,
    }
}

/// A test that is not running is never stopped; a running one is stopped
/// exactly when the endpoint the route resolves to (by id, or none) is not
/// the endpoint it plays into.
pub proof fn law_only_running_tests_stop_on_route_change(
    running: bool,
    source: Option<AudioSource>,
    endpoint: Option<Seq<char>>,
)
    ensures
        !running ==> !route_change_stops(running, source, endpoint),
        route_change_stops(running, source, endpoint) <==> running && match source {
            Some(s) => Some(s.id@),
            None => None::<Seq<char>>,
        } != endpoint,
{
}

} // verus!
