use chloe_vibes::audio::{ClimaxPattern, EnvelopeState, FrequencyMode, TriggerMode};
use chloe_vibes::audio_source::AudioSource;
use chloe_vibes::auto_lock::band_label;
use chloe_vibes::gui::{enable_signature, heartbeat_stale, Gui, WATCHDOG_TIMEOUT_MS};
use chloe_vibes::presets::{
    eq_ignore_ascii_case, position_of_preset, positions_in_category, PresetCategory, PresetEntry,
};
use chloe_vibes::timing_test::{route_changed, Groove};

fn entries() -> Vec<PresetEntry> {
    vec![
        PresetEntry {
            name: "Ride Intensity",
            category: PresetCategory::Init,
        },
        PresetEntry {
            name: "Domi Edge",
            category: PresetCategory::Percussion,
        },
        PresetEntry {
            name: "Transparent",
            category: PresetCategory::Init,
        },
        PresetEntry {
            name: "Deep Bass",
            category: PresetCategory::Bass,
        },
    ]
}

#[test]
fn category_labels_and_order() {
    assert_eq!(PresetCategory::Percussion.label(), "DRUMS");
    assert_eq!(PresetCategory::Musical.label(), "MUSICAL");
    assert_eq!(PresetCategory::Bass.label(), "BASS");
    assert_eq!(PresetCategory::Effect.label(), "FX");
    assert_eq!(PresetCategory::Init.label(), "INIT");
    assert_eq!(
        PresetCategory::all(),
        &[
            PresetCategory::Init,
            PresetCategory::Percussion,
            PresetCategory::Musical,
            PresetCategory::Bass,
            PresetCategory::Effect,
        ]
    );
}

#[test]
fn preset_lookup_ignores_ascii_case_only() {
    let catalog = entries();
    assert_eq!(position_of_preset(&catalog, "domi edge"), Some(1));
    assert_eq!(position_of_preset(&catalog, "DOMI EDGE"), Some(1));
    assert_eq!(position_of_preset(&catalog, "Domi Edge "), None);
    assert_eq!(position_of_preset(&catalog, "Missing"), None);
    assert!(eq_ignore_ascii_case("Ride Intensity", "rIDE iNTENSITY"));
    assert!(!eq_ignore_ascii_case("Ride", "Rider"));
    assert!(!eq_ignore_ascii_case("\u{e9}", "\u{c9}"));
}

#[test]
fn presets_of_a_category_keep_catalogue_order() {
    let catalog = entries();
    assert_eq!(positions_in_category(&catalog, PresetCategory::Init), vec![0, 2]);
    assert_eq!(positions_in_category(&catalog, PresetCategory::Bass), vec![3]);
    assert!(positions_in_category(&catalog, PresetCategory::Effect).is_empty());
}

#[test]
fn band_labels_cover_every_band() {
    let names: Vec<&str> = (0..9).map(band_label).collect();
    assert_eq!(
        names,
        vec!["Sub", "Bass", "Lo-Mid", "Mid", "Hi-Mid", "Pres", "Brill", "Air", "Air"]
    );
    assert_eq!(band_label(usize::MAX), "Air");
}

#[test]
fn grooves_are_named_and_described() {
    assert_eq!(Groove::ALL.len(), 3);
    assert_eq!(Groove::WetFloorBass.name(), "Wet Floor Bass");
    assert_eq!(Groove::TileRoomThrob.name(), "Tile Room Throb");
    assert_eq!(Groove::HowLongYouLast.name(), "How Long You Last");
    assert_eq!(
        Groove::TileRoomThrob.details(),
        "Around 00:38 \u{b7} four bars \u{b7} 125 BPM"
    );
}

#[test]
fn route_change_stops_only_a_running_test_on_another_route() {
    let speakers = AudioSource {
        id: "speakers".into(),
        name: "Speakers".into(),
        is_default: true,
    };
    assert!(!route_changed(true, Some(&speakers), Some("speakers")));
    assert!(route_changed(true, Some(&speakers), Some("headphones")));
    assert!(route_changed(true, None, Some("speakers")));
    assert!(route_changed(true, Some(&speakers), None));
    assert!(!route_changed(true, None, None));
    assert!(!route_changed(false, None, Some("speakers")));
}

#[test]
fn engine_modes_default_to_the_neutral_choice() {
    assert_eq!(TriggerMode::default(), TriggerMode::Dynamic);
    assert_eq!(FrequencyMode::default(), FrequencyMode::Full);
    assert_eq!(ClimaxPattern::default(), ClimaxPattern::Wave);
    assert_ne!(EnvelopeState::Idle, EnvelopeState::Release);
    assert!(Gui::default().server_addr.is_none());
}

#[test]
fn watchdog_stops_output_after_two_seconds_without_heartbeat() {
    assert_eq!(WATCHDOG_TIMEOUT_MS, 2000);
    assert!(!heartbeat_stale(10_000, 8_000));
    assert!(heartbeat_stale(10_001, 8_000));
    assert!(!heartbeat_stale(5_000, 9_000));
}

#[test]
fn enable_signature_shifts_in_every_toggle() {
    assert_eq!(enable_signature(true, &[], &[]), 1);
    assert_eq!(enable_signature(true, &[false, true], &[true]), 0b1011);
    assert_ne!(
        enable_signature(true, &[true], &[false]),
        enable_signature(true, &[true], &[true])
    );
    assert_eq!(enable_signature(false, &[true; 64], &[]), u64::MAX);
}
