use chloe_vibes::capture_frames::{CaptureActivity, CaptureFrames};

/// A sample is audible when it is a finite value above the noise floor.
fn audible(samples: &[f32]) -> Vec<bool> {
    samples
        .iter()
        .map(|x| x.is_finite() && x.abs() > 0.00001)
        .collect()
}

#[test]
fn silence_stops_after_forty_ms_even_with_continuous_packets() {
    for rate in [44100, 48000, 96000] {
        let mut guard = CaptureActivity::new(rate, 2);
        assert!(!guard.push(&audible(&[0.0; 100])));
        assert!(guard.push(&audible(&[0.0, 0.3]))); // Either channel is enough.
        let frames = (rate as usize * 40).div_ceil(1000);
        assert!(guard.push(&audible(&vec![0.0; (frames - 1) * 2])));
        assert!(!guard.push(&audible(&[0.0, 0.0])));
        assert!(!guard.push(&audible(&[f32::NAN, f32::INFINITY])));
        assert!(guard.push(&audible(&[0.00002, 0.0]))); // Preserve very quiet music.
    }
}

#[test]
fn silence_guard_observes_the_tail_of_a_batched_packet() {
    let mut guard = CaptureActivity::new(48000, 1);
    let mut packet = vec![0.5; 480];
    packet.extend(vec![0.0; 1920]);
    assert!(!guard.push(&audible(&packet)));
    packet.push(0.1);
    assert!(guard.push(&audible(&packet)));
}

fn windows(packet_frames: &[usize]) -> Vec<(u64, Vec<f32>)> {
    let mut buffer = CaptureFrames::new(2, 2048, 1024);
    let mut output = Vec::new();
    let mut offset = 0;
    for count in packet_frames {
        let samples: Vec<_> = (offset..offset + count)
            .flat_map(|frame| [frame as f32, -(frame as f32)])
            .collect();
        for (window, end) in buffer.push(&samples) {
            output.push((end, window));
        }
        offset += count;
    }
    output
}

#[test]
fn packet_sizes_and_poll_backlogs_do_not_change_fft_windows() {
    let regular = windows(&[480; 64]);
    let burst = windows(&[30720]);
    assert_eq!(regular, burst);
    assert_eq!(regular.len(), 30);
    for (index, (end, samples)) in regular.iter().enumerate() {
        assert_eq!(*end, (index as u64 + 1) * 1024);
        assert_eq!(samples[samples.len() - 2], (*end - 1) as f32);
        assert_eq!(samples[samples.len() - 1], -((*end - 1) as f32));
    }
}

#[test]
fn device_switch_or_discontinuity_discards_the_old_partial_window() {
    let mut buffer = CaptureFrames::new(1, 8, 4);
    assert!(buffer.push(&[9.0; 3]).is_empty(), "incomplete hop");
    buffer.clear();
    let mut output = Vec::new();
    for (samples, end) in buffer.push(&[1.0; 4]) {
        output.push((end, samples));
    }
    assert_eq!(output, vec![(4, vec![1.0; 4])]);
}

#[test]
fn quiet_limit_is_forty_ms_rounded_up_and_at_least_one_frame() {
    // 44100 * 40 / 1000 = 1764 exactly; 1 Hz rounds up to one frame; 0 Hz still needs one.
    let mut guard = CaptureActivity::new(44100, 1);
    assert!(guard.push(&[true]));
    assert!(guard.push(&vec![false; 1763]));
    assert!(!guard.push(&[false]));
    let mut slow = CaptureActivity::new(1, 1);
    assert!(slow.push(&[true]));
    assert!(!slow.push(&[false]));
    let mut stalled = CaptureActivity::new(0, 0);
    assert!(stalled.push(&[true]));
    assert!(!stalled.push(&[false]));
}

#[test]
fn partial_trailing_frame_is_ignored_by_the_silence_guard() {
    let mut guard = CaptureActivity::new(48000, 2);
    // One whole quiet frame and half a loud frame: the loud half is not a frame.
    assert!(!guard.push(&[false, false, true]));
}

#[test]
fn windows_keep_the_latest_samples_and_drop_partial_frames() {
    let mut buffer = CaptureFrames::new(2, 3, 2);
    // 5 samples: two whole frames, the trailing sample is dropped.
    let out = buffer.push(&[1, 2, 3, 4, 5]);
    assert_eq!(out, vec![(vec![1, 2, 3, 4], 2)]);
    let out = buffer.push(&[6, 7, 8, 9, 10, 11]);
    assert_eq!(out, vec![(vec![3, 4, 6, 7, 8, 9], 4)]);
    let out = buffer.push(&[12, 13]);
    assert_eq!(out, vec![(vec![8, 9, 10, 11, 12, 13], 6)]);
    let out = buffer.push(&[14, 15]);
    assert!(out.is_empty());
}

#[test]
fn split_packets_match_one_packet_law_example() {
    let stream: Vec<u32> = (0..40).collect();
    let mut whole = CaptureFrames::new(2, 4, 3);
    let at_once = whole.push(&stream);
    let mut split = CaptureFrames::new(2, 4, 3);
    let mut pieces = split.push(&stream[..6]);
    pieces.extend(split.push(&stream[6..18]));
    pieces.extend(split.push(&stream[18..]));
    assert_eq!(at_once, pieces);
    assert_eq!(at_once.len(), 6);
}

#[test]
fn silence_guard_depends_only_on_the_captured_frames() {
    // Same frames, different packet boundaries: same answers at the end.
    let frames: Vec<bool> = (0..300).map(|i| i == 10 || i == 200).collect();
    let mut whole = CaptureActivity::new(1000, 1); // 40-frame limit
    let at_once = whole.push(&frames);
    let mut split = CaptureActivity::new(1000, 1);
    let mut last = false;
    for chunk in frames.chunks(7) {
        last = split.push(chunk);
    }
    assert_eq!(at_once, last);
    assert!(!at_once); // 99 quiet frames followed the last audible one
    assert!(split.push(&[true]));
    assert!(split.push(&vec![false; 39]));
    assert!(!split.push(&[false]));
}
