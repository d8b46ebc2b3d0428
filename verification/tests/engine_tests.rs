use organ_engine::bytes::ByteSource;
use organ_engine::engine::{AudioEngine, EngineCommand};
use organ_engine::store::Sampler;
use organ_engine::voice::VoiceState;

const Q24: u32 = 1 << 24;

fn le32(v: u32) -> [u8; 4] {
    v.to_le_bytes()
}

fn le16(v: u16) -> [u8; 2] {
    v.to_le_bytes()
}

fn wav_16bit_mono(rate: u32, samples: &[i16]) -> Vec<u8> {
    let mut f = Vec::new();
    f.extend_from_slice(b"RIFF");
    f.extend_from_slice(&le32(0));
    f.extend_from_slice(b"WAVE");
    f.extend_from_slice(b"fmt ");
    f.extend_from_slice(&le32(16));
    f.extend_from_slice(&le16(1));
    f.extend_from_slice(&le16(1));
    f.extend_from_slice(&le32(rate));
    f.extend_from_slice(&le32(rate * 2));
    f.extend_from_slice(&le16(2));
    f.extend_from_slice(&le16(16));
    f.extend_from_slice(b"data");
    f.extend_from_slice(&le32(2 * samples.len() as u32));
    for s in samples {
        f.extend_from_slice(&s.to_le_bytes());
    }
    f
}

/// A quiet one-second ramp.
fn second_of_audio(rate: u32) -> Vec<i16> {
    (0..rate as usize).map(|i| ((i * 13) % 2000) as i16 - 1000).collect()
}

fn engine_with_sample(rate: u32, stop: &str, path: &str) -> AudioEngine {
    let mut store = Sampler::new();
    store
        .load_sample(
            stop.to_string(),
            path.to_string(),
            ByteSource::Mem(wav_16bit_mono(rate, &second_of_audio(rate))),
            None,
        )
        .expect("load");
    AudioEngine::new(store, rate, 2)
}

fn note_on(e: &mut AudioEngine, note: u8, stop: &str, path: &str, release_path: Option<&str>) {
    e.note_on(
        note,
        stop.to_string(),
        path.to_string(),
        release_path.map(|s| s.to_string()),
        Q24,
        0,
    );
}

/// Step every engine voice by `n` output frames.
fn step_voices(e: &mut AudioEngine, n: usize) {
    for _ in 0..n {
        for v in e.voices.iter_mut() {
            let _ = v.next_sample();
        }
    }
}

#[test]
fn restrike_leaves_one_playing_voice() {
    // Two consecutive note-ons for the same key: the first take is
    // releasing over a 10 ms fade, the new take is the only playing
    // voice for the key.
    let mut e = engine_with_sample(48000, "flute", "c4.wav");
    e.set_loading_mode("keep".to_string());
    note_on(&mut e, 60, "flute", "c4.wav", None);
    assert_eq!(e.voices.len(), 1);
    step_voices(&mut e, 24000); // half a second
    note_on(&mut e, 60, "flute", "c4.wav", None);
    assert_eq!(e.voices.len(), 2);
    assert!(matches!(e.voices[0].state, VoiceState::Releasing));
    assert_eq!(e.voices[0].release_samples, 480);
    assert_eq!(e.voices[0].samples_since_release, 0);
    assert!(matches!(e.voices[1].state, VoiceState::Playing));
    let playing = e
        .voices
        .iter()
        .filter(|v| v.is_note(60, "flute") && matches!(v.state, VoiceState::Playing))
        .count();
    assert_eq!(playing, 1);
}

#[test]
fn restrike_fade_and_attack_timings() {
    // The faded voice's envelope reaches 0.01 within 10 ms of the
    // second note-on; the new voice's envelope crosses 0.5 between
    // 2.5 ms and 5 ms.
    let mut e = engine_with_sample(48000, "flute", "c4.wav");
    e.set_loading_mode("keep".to_string());
    note_on(&mut e, 60, "flute", "c4.wav", None);
    step_voices(&mut e, 24000);
    note_on(&mut e, 60, "flute", "c4.wav", None);
    // 119 frames: just before 2.5 ms.
    step_voices(&mut e, 119);
    assert!((e.voices[1].envelope as f64) < 0.5 * Q24 as f64);
    // frame 121: past 2.5 ms, before 5 ms.
    step_voices(&mut e, 2);
    assert!((e.voices[1].envelope as f64) > 0.5 * Q24 as f64);
    assert!((e.voices[1].envelope as f64) < Q24 as f64);
    // By 10 ms (480 frames) the old voice is silent.
    step_voices(&mut e, 480 - 121);
    assert!(e.voices[0].envelope as f64 <= 0.01 * Q24 as f64);
    assert!(e.voices[0].is_finished());
}

#[test]
fn authentic_release_spawns_crossfading_voice() {
    // With release_mode = "authentic" and a release path, note-off
    // cuts the primary to a 50 ms crossfade and queues a release
    // voice with exactly the primary's pitch ratio.
    let rate = 48000;
    let mut store = Sampler::new();
    store
        .load_sample(
            "flute".to_string(),
            "c4.wav".to_string(),
            ByteSource::Mem(wav_16bit_mono(rate, &second_of_audio(rate))),
            None,
        )
        .expect("load primary");
    store
        .load_sample(
            "flute".to_string(),
            "c4-rel.wav".to_string(),
            ByteSource::Mem(wav_16bit_mono(rate, &second_of_audio(rate))),
            None,
        )
        .expect("load release");
    let mut e = AudioEngine::new(store, rate, 2);
    e.set_loading_mode("keep".to_string());
    note_on(&mut e, 60, "flute", "c4.wav", Some("c4-rel.wav"));
    step_voices(&mut e, 9600); // 200 ms
    let primary_ratio = e.voices[0].pitch_ratio;
    e.note_off(60, "flute".to_string());
    assert!(matches!(e.voices[0].state, VoiceState::Releasing));
    assert_eq!(e.voices[0].release_samples, 2400);
    assert_eq!(e.pending.len(), 1);
    e.auto_swap();
    assert_eq!(e.voices.len(), 2);
    let rel = &e.voices[1];
    assert!(rel.is_release);
    assert!(matches!(rel.state, VoiceState::Playing));
    assert_eq!(rel.pitch_ratio, primary_ratio);
    assert_eq!(rel.envelope, 0);
    assert_eq!(rel.attack_samples, 2400);
    // Both sound during the crossfade.
    assert!(matches!(e.voices[0].state, VoiceState::Releasing));
    assert!(matches!(e.voices[1].state, VoiceState::Playing));
}

#[test]
fn synthetic_release_uses_plain_fade() {
    let mut e = engine_with_sample(48000, "flute", "c4.wav");
    e.set_loading_mode("keep".to_string());
    e.set_release_mode("synthetic".to_string());
    note_on(&mut e, 60, "flute", "c4.wav", Some("c4-rel.wav"));
    e.note_off(60, "flute".to_string());
    assert!(matches!(e.voices[0].state, VoiceState::Releasing));
    assert_eq!(e.voices[0].release_samples, 9600); // 200 ms
    assert_eq!(e.pending.len(), 0);
}

#[test]
fn note_off_with_eager_loading_unloads_sample() {
    let mut e = engine_with_sample(48000, "flute", "c4.wav");
    // loading mode "none" is the default
    note_on(&mut e, 60, "flute", "c4.wav", None);
    assert!(e.sampler.get_sample("flute", "c4.wav").is_some());
    e.note_off(60, "flute".to_string());
    assert!(e.sampler.get_sample("flute", "c4.wav").is_none());
    // The releasing voice keeps its handle and keeps sounding.
    assert!(matches!(e.voices[0].state, VoiceState::Releasing));
}

#[test]
fn missing_sample_ignores_note_on() {
    let mut e = engine_with_sample(48000, "flute", "c4.wav");
    note_on(&mut e, 60, "flute", "nope.wav", None);
    assert_eq!(e.voices.len(), 0);
}

#[test]
fn streaming_upgrade_swaps_transparently() {
    // Load a 200 ms partial, start a note, then load the full sample:
    // auto_swap moves the playing voice onto the full sample without
    // touching its position or pitch.
    let rate = 48000;
    let bytes = wav_16bit_mono(rate, &second_of_audio(rate));
    let mut store = Sampler::new();
    store
        .load_sample(
            "flute".to_string(),
            "c4.wav".to_string(),
            ByteSource::Mem(bytes.clone()),
            Some(200),
        )
        .expect("load partial");
    let mut e = AudioEngine::new(store, rate, 2);
    e.set_loading_mode("keep".to_string());
    note_on(&mut e, 60, "flute", "c4.wav", None);
    assert!(!e.voices[0].sample.is_full);
    assert_eq!(e.voices[0].sample.get_len(), 9600);
    step_voices(&mut e, 1000);
    let pos = e.voices[0].position;
    let ratio = e.voices[0].pitch_ratio;
    let inc = e.voices[0].increment;
    e.load_sample("flute".to_string(), "c4.wav".to_string(), ByteSource::Mem(bytes), None)
        .expect("load full");
    e.auto_swap();
    let v = &e.voices[0];
    assert!(v.sample.is_full);
    assert_eq!(v.sample.get_len(), rate as usize);
    assert_eq!(v.position, pos);
    assert_eq!(v.pitch_ratio, ratio);
    assert_eq!(v.increment, inc);
}

#[test]
fn global_gain_scales_every_output_slot() {
    // set-global-gain { db: -6 } means a linear factor of
    // 10^(-0.3), about 0.5012; every rendered slot scales by it.
    let gain_q24: u32 = (10f64.powf(-6.0 / 20.0) * f64::from(1u32 << 24)).round() as u32;
    let mut reference = engine_with_sample(48000, "flute", "c4.wav");
    note_on(&mut reference, 60, "flute", "c4.wav", None);
    let mut buffer_ref: Vec<i64> = vec![0; 512];
    reference.render(&mut buffer_ref);

    let mut scaled = engine_with_sample(48000, "flute", "c4.wav");
    note_on(&mut scaled, 60, "flute", "c4.wav", None);
    scaled.set_global_gain(gain_q24);
    let mut buffer_scaled: Vec<i64> = vec![0; 512];
    scaled.render(&mut buffer_scaled);

    let mut any_nonzero = false;
    for j in 0..512 {
        let expect = ((buffer_ref[j] as i128) * (gain_q24 as i128)).div_euclid(1i128 << 24) as i64;
        assert_eq!(buffer_scaled[j], expect, "slot {}", j);
        if buffer_ref[j] != 0 {
            any_nonzero = true;
        }
    }
    assert!(any_nonzero);
}

#[test]
fn mono_output_folds_stereo_pair() {
    // On a one-channel device each slot carries the average of the
    // voice's stereo pair; for a mono source the two sides agree, so
    // the fold returns the plain signal.
    let rate = 48000;
    let mut store = Sampler::new();
    store
        .load_sample(
            "flute".to_string(),
            "c4.wav".to_string(),
            ByteSource::Mem(wav_16bit_mono(rate, &second_of_audio(rate))),
            None,
        )
        .expect("load");
    let mut mono = AudioEngine::new(store, rate, 1);
    note_on(&mut mono, 60, "flute", "c4.wav", None);
    let mut buf_mono: Vec<i64> = vec![0; 256];
    mono.render(&mut buf_mono);

    let mut stereo = engine_with_sample(rate, "flute", "c4.wav");
    note_on(&mut stereo, 60, "flute", "c4.wav", None);
    let mut buf_stereo: Vec<i64> = vec![0; 512];
    stereo.render(&mut buf_stereo);

    let mut any_nonzero = false;
    for f in 0..256 {
        let l = buf_stereo[2 * f] as i128;
        let r = buf_stereo[2 * f + 1] as i128;
        assert_eq!(buf_mono[f] as i128, (l + r).div_euclid(2), "frame {}", f);
        if buf_mono[f] != 0 {
            any_nonzero = true;
        }
    }
    assert!(any_nonzero);
}

#[test]
fn synthetic_mode_never_queues_release_voices() {
    // In synthetic mode a note-off must not enqueue a release voice,
    // even when a release path and its sample are available.
    let rate = 48000;
    let mut store = Sampler::new();
    store
        .load_sample(
            "flute".to_string(),
            "c4.wav".to_string(),
            ByteSource::Mem(wav_16bit_mono(rate, &second_of_audio(rate))),
            None,
        )
        .expect("load primary");
    store
        .load_sample(
            "flute".to_string(),
            "c4-rel.wav".to_string(),
            ByteSource::Mem(wav_16bit_mono(rate, &second_of_audio(rate))),
            None,
        )
        .expect("load release");
    let mut e = AudioEngine::new(store, rate, 2);
    e.set_loading_mode("keep".to_string());
    e.set_release_mode("synthetic".to_string());
    note_on(&mut e, 60, "flute", "c4.wav", Some("c4-rel.wav"));
    e.note_off(60, "flute".to_string());
    assert_eq!(e.pending.len(), 0);
    assert_eq!(e.voices.len(), 1);
}

#[test]
fn process_block_runs_all_phases() {
    let mut e = engine_with_sample(48000, "flute", "c4.wav");
    let commands = vec![
        EngineCommand::SetLoadingMode("keep".to_string()),
        EngineCommand::NoteOn {
            note: 60,
            stop_id: "flute".to_string(),
            path: "c4.wav".to_string(),
            release_path: None,
            gain: Q24,
            pitch_offset_mc: 0,
        },
    ];
    let mut buffer: Vec<i64> = vec![0; 256];
    let report = e.process_block(commands, &mut buffer);
    assert!(report.is_none());
    assert_eq!(e.voices.len(), 1);
    assert!(buffer.iter().any(|v| *v != 0));
    // Finished voices never survive a block.
    assert!(e.voices.iter().all(|v| !matches!(v.state, VoiceState::Finished)));
    assert_eq!(e.pending.len(), 0);
    assert_eq!(e.frames_since_report, 128);

    // A note-off then enough silence retires the voice.
    let commands = vec![EngineCommand::NoteOff { note: 60, stop_id: "flute".to_string() }];
    let mut big: Vec<i64> = vec![0; 2 * 9600 + 256];
    let _ = e.process_block(commands, &mut big);
    assert_eq!(e.voices.len(), 0);
}

#[test]
fn report_counter_fires_every_five_seconds() {
    let mut e = engine_with_sample(48000, "flute", "c4.wav");
    let mut buffer: Vec<i64> = vec![0; 2 * 120_000];
    assert!(e.process_block(Vec::new(), &mut buffer).is_none());
    assert_eq!(e.frames_since_report, 120_000);
    let r = e.process_block(Vec::new(), &mut buffer);
    assert!(r.is_some());
    assert_eq!(e.frames_since_report, 0);
}

#[test]
fn unload_command_is_processed_in_order() {
    let mut e = engine_with_sample(48000, "flute", "c4.wav");
    let commands = vec![EngineCommand::UnloadSample {
        stop_id: "flute".to_string(),
        path: "c4.wav".to_string(),
    }];
    let mut buffer: Vec<i64> = vec![0; 64];
    let _ = e.process_block(commands, &mut buffer);
    assert!(e.sampler.get_sample("flute", "c4.wav").is_none());
}
