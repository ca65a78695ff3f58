//! Verified core of the audio-reactive haptics controller: playback-source
//! selection, capture framing and silence detection, preset catalogue
//! lookup, and the modes shared with the signal engine.

pub mod audio;
pub mod audio_source;
pub mod auto_lock;
pub mod capture_frames;
pub mod gui;
pub mod presets;
pub mod timing_test;
pub mod util;
