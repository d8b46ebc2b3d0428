use std::sync::Arc;
use organ_engine::sample::{Sample, SampleSource};
use organ_engine::voice::{parse_root_from_path, Voice, VoiceState};
use organ_engine::wav::LoopPoint;

const Q24: u32 = 1 << 24;
const Q32: u64 = 1 << 32;

/// An in-memory mono sample from Q24 values.
fn mono_sample(rate: u32, values: Vec<i32>, root: Option<u32>, ft_mc: Option<i64>, lp: Option<(u32, u32)>) -> Arc<Sample> {
    Arc::new(Sample {
        stop_id: "stop".to_string(),
        source: SampleSource::InMemory(vec![values]),
        sample_rate: rate,
        loop_point: lp.map(|(start, end)| LoopPoint { start, end }),
        root_note: root,
        fine_tune_mc: ft_mc,
        is_full: true,
    })
}

fn plain_voice(sample: Arc<Sample>, attack_ms: u32) -> Voice {
    Voice::new(
        sample,
        "p.wav".to_string(),
        60,
        48000,
        Q24,
        None,
        attack_ms,
        200,
        None,
        0,
        false,
    )
}

#[test]
fn pitch_neutral_voice_has_unit_increment() {
    // Same rate, no root note, no offset: the increment is exactly one
    // frame per output frame.
    let s = mono_sample(48000, vec![0; 100], None, None, None);
    let v = plain_voice(s, 5);
    assert_eq!(v.pitch_ratio, Q32);
    assert_eq!(v.increment, Q32);
    assert_eq!(v.position, 0);
    assert!(matches!(v.state, VoiceState::Playing));
}

#[test]
fn pitch_octaves_are_exact() {
    // An octave up doubles the ratio exactly; an octave down halves it.
    let s_up = mono_sample(48000, vec![0; 10], Some(48), None, None);
    let v_up = plain_voice(s_up, 5);
    assert_eq!(v_up.pitch_ratio, 2 * Q32);
    let s_down = mono_sample(48000, vec![0; 10], Some(72), None, None);
    let v_down = plain_voice(s_down, 5);
    assert_eq!(v_down.pitch_ratio, Q32 / 2);
}

#[test]
fn pitch_computation_matches_cents_formula() {
    // root = 60, fine_tune = +25 cents, note = 72, offset = -100 cents:
    // total cents = (72 - 60) * 100 - 25 - 100 = 1075, and the ratio is
    // 2^(1075/1200) = 1.8610 or so.
    let s = mono_sample(48000, vec![0; 10], Some(60), Some(25_000), None);
    let v = Voice::new(
        s,
        "p.wav".to_string(),
        72,
        48000,
        Q24,
        None,
        5,
        200,
        None,
        -100_000,
        false,
    );
    let got = v.pitch_ratio as f64 / Q32 as f64;
    let expect = 2f64.powf(1075.0 / 1200.0);
    assert!((got - expect).abs() < 1e-4, "ratio {} vs {}", got, expect);
    assert!((got - 1.8610).abs() < 1e-3);
}

#[test]
fn fine_tune_applies_without_root_note() {
    // The fine-tune term stands on its own: +25 cents of fine tune
    // flattens the playback by 25 cents even with no root note.
    let s = mono_sample(48000, vec![0; 10], None, Some(25_000), None);
    let v = plain_voice(s, 5);
    let got = v.pitch_ratio as f64 / Q32 as f64;
    let expect = 2f64.powf(-25.0 / 1200.0);
    assert!((got - expect).abs() < 1e-4, "ratio {} vs {}", got, expect);
}

#[test]
fn manual_pitch_ratio_is_taken_verbatim() {
    let s = mono_sample(48000, vec![0; 10], Some(60), Some(25_000), None);
    let v = Voice::new(
        s,
        "p.wav".to_string(),
        72,
        48000,
        Q24,
        None,
        5,
        200,
        Some(12345678901),
        -100_000,
        true,
    );
    assert_eq!(v.pitch_ratio, 12345678901);
    assert!(v.is_release);
}

#[test]
fn unit_increment_advances_one_frame_per_call() {
    // At increment 1.0 with no loop the position advances by exactly
    // one frame per call, and the voice finishes right after the last
    // frame: len - floor(start) + 0 release frames of output.
    let len = 50usize;
    let s = mono_sample(48000, vec![1 << 20; len], None, None, None);
    let mut v = plain_voice(s, 0);
    let mut calls = 0usize;
    while !v.is_finished() {
        let before = v.position;
        let _ = v.next_sample();
        if !v.is_finished() {
            assert_eq!(v.position, before + Q32);
        }
        calls += 1;
        assert!(calls <= len + 1);
    }
    // One call per frame, and the final call only discovers the end.
    assert_eq!(calls, len + 1);
}

#[test]
fn loop_region_repeats_exactly() {
    // A sample of 10_000 frames looping over [4000, 8000): at
    // increment 1 the output at frames 8000.. equals the output at
    // 4000...
    let n = 10_000usize;
    let values: Vec<i32> = (0..n).map(|i| ((i * 37) % 4001) as i32 - 2000).collect();
    let s = mono_sample(48000, values.clone(), None, None, Some((4000, 8000)));
    let mut v = plain_voice(s, 0);
    let mut out: Vec<i64> = Vec::new();
    for _ in 0..8100 {
        let (l, _r) = v.next_sample();
        out.push(l);
    }
    // After the attack (instantaneous here, first call aside), the
    // output is the sample itself in Q24.
    assert_eq!(out[1], values[1] as i64);
    assert_eq!(out[4321], values[4321] as i64);
    for j in 0..100 {
        assert_eq!(out[8000 + j], out[4000 + j], "frame {}", 8000 + j);
        assert_eq!(out[8000 + j], values[4000 + j] as i64);
    }
    assert!(!v.is_finished());
}

#[test]
fn envelope_attack_ramps_up_and_release_ramps_down() {
    let s = mono_sample(48000, vec![1 << 20; 100_000], None, None, Some((10, 90_000)));
    let mut v = plain_voice(s, 5);
    // Attack: 5 ms at 48 kHz is 240 frames; the envelope is
    // non-decreasing and reaches full scale.
    let mut prev = v.envelope;
    for _ in 0..240 {
        let _ = v.next_sample();
        assert!(v.envelope >= prev);
        prev = v.envelope;
    }
    assert_eq!(v.envelope, Q24);
    // Release: 200 ms is 9600 frames; the envelope is non-increasing
    // and ends at zero, finishing the voice.
    v.release();
    assert!(matches!(v.state, VoiceState::Releasing));
    let mut prev = v.envelope;
    let mut steps = 0usize;
    while !v.is_finished() {
        let _ = v.next_sample();
        assert!(v.envelope <= prev);
        prev = v.envelope;
        steps += 1;
        assert!(steps <= 9600);
    }
    assert_eq!(v.envelope, 0);
    assert_eq!(steps, 9600);
}

#[test]
fn release_is_a_no_op_unless_playing() {
    let s = mono_sample(48000, vec![0; 10], None, None, None);
    let mut v = plain_voice(s, 5);
    v.release();
    assert!(matches!(v.state, VoiceState::Releasing));
    v.release();
    assert!(matches!(v.state, VoiceState::Releasing));
}

#[test]
fn swap_sample_keeps_position_and_pitch() {
    let partial = mono_sample(48000, vec![7 << 10; 50], None, None, None);
    let full = Arc::new(Sample {
        stop_id: "stop".to_string(),
        source: SampleSource::InMemory(vec![vec![9 << 10; 500]]),
        sample_rate: 24000,
        loop_point: None,
        root_note: None,
        fine_tune_mc: None,
        is_full: true,
    });
    let mut v = plain_voice(partial, 0);
    for _ in 0..10 {
        let _ = v.next_sample();
    }
    let pos = v.position;
    let ratio = v.pitch_ratio;
    v.swap_sample(full, 48000);
    assert_eq!(v.position, pos);
    assert_eq!(v.pitch_ratio, ratio);
    // The increment follows the new sample's rate: half the output
    // rate means half a frame per output frame.
    assert_eq!(v.increment, Q32 / 2);
    assert!(v.sample.is_full);
}

#[test]
fn stereo_sample_feeds_both_channels() {
    let left: Vec<i32> = vec![1000, 2000, 3000, 4000];
    let right: Vec<i32> = vec![-1000, -2000, -3000, -4000];
    let s = Arc::new(Sample {
        stop_id: "stop".to_string(),
        source: SampleSource::InMemory(vec![left, right]),
        sample_rate: 48000,
        loop_point: None,
        root_note: None,
        fine_tune_mc: None,
        is_full: true,
    });
    let mut v = plain_voice(s, 0);
    let _ = v.next_sample();
    let (l, r) = v.next_sample();
    assert_eq!(l, 2000);
    assert_eq!(r, -2000);
}

#[test]
fn gain_scales_output_linearly() {
    let s = mono_sample(48000, vec![1 << 20; 100], None, None, None);
    let mut v = Voice::new(
        s,
        "p.wav".to_string(),
        60,
        48000,
        Q24 / 2,
        None,
        0,
        200,
        None,
        0,
        false,
    );
    let _ = v.next_sample();
    let (l, _) = v.next_sample();
    assert_eq!(l, 1 << 19);
}

#[test]
fn render_into_touches_only_whole_frames() {
    // A buffer of 7 slots at 2 channels holds 3 whole frames: the
    // seventh slot stays untouched, and every touched slot moves by
    // the voice's contribution only.
    let s = mono_sample(48000, vec![1 << 20; 100], None, None, None);
    let mut v = plain_voice(s, 0);
    let _ = v.next_sample(); // complete the instantaneous attack
    let mut buffer: Vec<i64> = vec![11, 22, 33, 44, 55, 66, 77];
    v.render_into(&mut buffer, 2);
    assert_eq!(buffer.len(), 7);
    assert_eq!(buffer[6], 77);
    assert_eq!(buffer[0], 11 + (1 << 20));
    assert_eq!(buffer[1], 22 + (1 << 20));
    assert_eq!(buffer[2], 33 + (1 << 20));
}

#[test]
fn render_into_stops_at_finished_voice() {
    // A two-frame sample mixed into a longer buffer: frames past the
    // end stay silent and the voice is finished.
    let s = mono_sample(48000, vec![1 << 20; 2], None, None, None);
    let mut v = plain_voice(s, 0);
    let mut buffer: Vec<i64> = vec![0; 12];
    v.render_into(&mut buffer, 2);
    assert!(v.is_finished());
    // Frame 0 sounds with a zero envelope; frame 1 carries the value;
    // the end is found at frame 2 and nothing follows.
    assert_eq!(buffer[2], 1 << 20);
    for j in 6..12 {
        assert_eq!(buffer[j], 0);
    }
}

#[test]
fn parse_root_from_path_finds_note_numbers() {
    assert_eq!(parse_root_from_path("060-C.wav"), Some(60));
    assert_eq!(parse_root_from_path("flute/048.wav"), Some(48));
    assert_eq!(parse_root_from_path("127abc"), Some(127));
    // 128 and beyond are not note numbers.
    assert_eq!(parse_root_from_path("128"), None);
    assert_eq!(parse_root_from_path("sample447.wav"), None);
    assert_eq!(parse_root_from_path("no digits here"), None);
    assert_eq!(parse_root_from_path("ab"), None);
    // The scan runs backward: the last run of three digits wins.
    assert_eq!(parse_root_from_path("001-060.wav"), Some(60));
}
