# chloe_vibes

Music-driven haptics: system audio is captured, analysed and turned into
actuator commands for connected devices.

* `src/` is the verified library (Verus). It holds the logic that does not
  compute on floating point: playback-source selection (`audio_source`),
  exact analysis framing independent of packet sizes and the 40 ms silence
  guard (`capture_frames`), the preset catalogue lookup (`presets`), the
  device-output watchdog and enable signature (`gui`), and the
  engine's modes and labels. Each public function states its result in its
  contract; the laws of the library are public proof functions whose names
  start with `law_`.
* `app/` is ordinary Rust around it: the f32/f64 signal engine (FFT analysis,
  gate, ADSR envelope, beat detection, long-cycle modulation), device
  dispatch, tap tempo, the factory presets, serde and clap copies of library
  types, and the float-side glue that feeds the verified framer.
* `tests/` exercises the library from outside.
