use organ_engine::bytes::ByteSource;
use organ_engine::store::Sampler;
use organ_engine::wav::WavError;

fn le32(v: u32) -> [u8; 4] {
    v.to_le_bytes()
}

fn le16(v: u16) -> [u8; 2] {
    v.to_le_bytes()
}

fn fmt_chunk(audio_format: u16, channels: u16, rate: u32, bits: u16) -> Vec<u8> {
    let mut c = Vec::new();
    c.extend_from_slice(b"fmt ");
    c.extend_from_slice(&le32(16));
    c.extend_from_slice(&le16(audio_format));
    c.extend_from_slice(&le16(channels));
    c.extend_from_slice(&le32(rate));
    c.extend_from_slice(&le32(rate * channels as u32 * (bits / 8) as u32));
    c.extend_from_slice(&le16(channels * (bits / 8)));
    c.extend_from_slice(&le16(bits));
    c
}

fn wav_16bit_mono(rate: u32, samples: &[i16]) -> Vec<u8> {
    let mut f = Vec::new();
    f.extend_from_slice(b"RIFF");
    f.extend_from_slice(&le32(0));
    f.extend_from_slice(b"WAVE");
    f.extend_from_slice(&fmt_chunk(1, 1, rate, 16));
    f.extend_from_slice(b"data");
    f.extend_from_slice(&le32(2 * samples.len() as u32));
    for s in samples {
        f.extend_from_slice(&s.to_le_bytes());
    }
    f
}

/// One second of a ramp at the given rate.
fn ramp(n: usize) -> Vec<i16> {
    (0..n).map(|i| (i % 1000) as i16).collect()
}

#[test]
fn load_then_get_and_unload() {
    let mut store = Sampler::new();
    let bytes = wav_16bit_mono(48000, &ramp(100));
    store
        .load_sample("flute".to_string(), "c4.wav".to_string(), ByteSource::Mem(bytes), None)
        .expect("load");
    let s = store.get_sample("flute", "c4.wav").expect("present");
    assert!(s.is_full);
    assert_eq!(s.get_len(), 100);
    assert_eq!(s.sample_rate, 48000);
    assert!(store.get_sample("flute", "d4.wav").is_none());
    store.unload_sample("flute", "c4.wav");
    assert!(store.get_sample("flute", "c4.wav").is_none());
}

#[test]
fn full_entry_wins_over_reload() {
    // Once a full sample is stored, neither a partial nor a full
    // reload replaces it.
    let mut store = Sampler::new();
    let bytes = wav_16bit_mono(48000, &ramp(4800));
    store
        .load_sample("a".to_string(), "p.wav".to_string(), ByteSource::Mem(bytes), None)
        .expect("load full");
    let before = store.get_sample("a", "p.wav").expect("present");
    let other = wav_16bit_mono(44100, &ramp(10));
    store
        .load_sample("a".to_string(), "p.wav".to_string(), ByteSource::Mem(other.clone()), Some(5))
        .expect("skip partial");
    let after = store.get_sample("a", "p.wav").expect("present");
    assert!(after.is_full);
    assert_eq!(after.sample_rate, before.sample_rate);
    assert_eq!(after.get_len(), before.get_len());
    store
        .load_sample("a".to_string(), "p.wav".to_string(), ByteSource::Mem(other), None)
        .expect("skip full reload");
    let last = store.get_sample("a", "p.wav").expect("present");
    assert_eq!(last.sample_rate, 48000);
}

#[test]
fn partial_upgraded_by_full_load() {
    let mut store = Sampler::new();
    let bytes = wav_16bit_mono(1000, &ramp(1000));
    // 200 ms at 1 kHz: 200 frames.
    store
        .load_sample("a".to_string(), "p.wav".to_string(), ByteSource::Mem(bytes.clone()), Some(200))
        .expect("load partial");
    let partial = store.get_sample("a", "p.wav").expect("present");
    assert!(!partial.is_full);
    assert_eq!(partial.get_len(), 200);
    // A second partial request is satisfied by the stored partial.
    store
        .load_sample("a".to_string(), "p.wav".to_string(), ByteSource::Mem(bytes.clone()), Some(900))
        .expect("skip");
    assert_eq!(store.get_sample("a", "p.wav").expect("present").get_len(), 200);
    // A full request replaces it.
    store
        .load_sample("a".to_string(), "p.wav".to_string(), ByteSource::Mem(bytes), None)
        .expect("upgrade");
    let full = store.get_sample("a", "p.wav").expect("present");
    assert!(full.is_full);
    assert_eq!(full.get_len(), 1000);
}

#[test]
fn load_errors_leave_store_unchanged() {
    let mut store = Sampler::new();
    assert_eq!(
        store.load_sample(
            "a".to_string(),
            "bad.wav".to_string(),
            ByteSource::Mem(vec![1, 2, 3, 4]),
            None,
        ),
        Err(WavError::NotRiff),
    );
    assert!(store.get_sample("a", "bad.wav").is_none());

    // Unsupported bit depth.
    let mut f = Vec::new();
    f.extend_from_slice(b"RIFF");
    f.extend_from_slice(&le32(0));
    f.extend_from_slice(b"WAVE");
    f.extend_from_slice(&fmt_chunk(1, 1, 48000, 12));
    f.extend_from_slice(b"data");
    f.extend_from_slice(&le32(4));
    f.extend_from_slice(&[0; 4]);
    assert_eq!(
        store.load_sample("a".to_string(), "odd.wav".to_string(), ByteSource::Mem(f), None),
        Err(WavError::UnsupportedFormat),
    );

    // Data chunk that claims more than the file holds.
    let mut t = Vec::new();
    t.extend_from_slice(b"RIFF");
    t.extend_from_slice(&le32(0));
    t.extend_from_slice(b"WAVE");
    t.extend_from_slice(&fmt_chunk(1, 1, 48000, 16));
    t.extend_from_slice(b"data");
    t.extend_from_slice(&le32(40000));
    t.extend_from_slice(&[0; 10]);
    assert_eq!(
        store.load_sample("a".to_string(), "trunc.wav".to_string(), ByteSource::Mem(t), None),
        Err(WavError::Truncated),
    );
    assert!(store.get_sample("a", "trunc.wav").is_none());
}

#[test]
fn in_memory_sample_content() {
    let mut store = Sampler::new();
    let bytes = wav_16bit_mono(1000, &[5, -7, 300, -300]);
    store
        .load_sample("a".to_string(), "v.wav".to_string(), ByteSource::Mem(bytes), Some(4))
        .expect("load");
    let s = store.get_sample("a", "v.wav").expect("present");
    assert_eq!(s.get_sample(0, 0), 5 * 512);
    assert_eq!(s.get_sample(0, 1), -7 * 512);
    assert_eq!(s.get_sample(0, 2), 300 * 512);
    assert_eq!(s.get_sample(0, 3), -300 * 512);
    // Out of range reads are silent.
    assert_eq!(s.get_sample(0, 4), 0);
    assert_eq!(s.get_sample(1, 0), 0);
}

#[test]
fn streaming_sample_reads_past_attack() {
    let mut store = Sampler::new();
    // 1 kHz rate: the attack buffer covers ceil(1000 / 10) = 100 frames.
    let samples: Vec<i16> = (0..500).map(|i| (i as i16) - 250).collect();
    let bytes = wav_16bit_mono(1000, &samples);
    store
        .load_sample("a".to_string(), "s.wav".to_string(), ByteSource::Mem(bytes), None)
        .expect("load");
    let s = store.get_sample("a", "s.wav").expect("present");
    assert!(s.is_full);
    assert_eq!(s.get_len(), 500);
    // Inside the attack buffer.
    assert_eq!(s.get_sample(0, 50), (50 - 250) * 512);
    // Beyond the attack buffer: decoded from the raw bytes on demand.
    assert_eq!(s.get_sample(0, 499), (499 - 250) * 512);
    assert_eq!(s.get_sample(0, 500), 0);
}

#[test]
fn streaming_from_memory_map() {
    // The same streaming read, through a real read-only memory map:
    // this fails if the map were read wrongly.
    let samples: Vec<i16> = (0..500).map(|i| (i as i16).wrapping_mul(37)).collect();
    let bytes = wav_16bit_mono(1000, &samples);
    let mut anon = memmap2::MmapOptions::new().len(bytes.len()).map_anon().expect("map");
    anon.copy_from_slice(&bytes);
    let map = anon.make_read_only().expect("freeze");
    let mut store = Sampler::new();
    store
        .load_sample("a".to_string(), "m.wav".to_string(), ByteSource::Mapped(map), None)
        .expect("load");
    let s = store.get_sample("a", "m.wav").expect("present");
    assert_eq!(s.get_len(), 500);
    for k in [0usize, 99, 100, 250, 499] {
        assert_eq!(s.get_sample(0, k), (samples[k] as i32) * 512);
    }
}

#[test]
fn memory_usage_counts_decoded_buffers() {
    let mut store = Sampler::new();
    assert_eq!(store.get_memory_usage(), 0);
    let bytes = wav_16bit_mono(1000, &ramp(1000));
    store
        .load_sample("a".to_string(), "p.wav".to_string(), ByteSource::Mem(bytes), Some(250))
        .expect("load");
    // 250 frames of one channel at 4 bytes each.
    assert_eq!(store.get_memory_usage(), 1000);
    store.unload_sample("a", "p.wav");
    assert_eq!(store.get_memory_usage(), 0);
}

#[test]
fn invalid_loop_points_are_dropped() {
    let mut f = Vec::new();
    f.extend_from_slice(b"RIFF");
    f.extend_from_slice(&le32(0));
    f.extend_from_slice(b"WAVE");
    f.extend_from_slice(&fmt_chunk(1, 1, 48000, 16));
    // smpl chunk with an empty loop (end == start).
    let mut body = vec![0u8; 36];
    body[28..32].copy_from_slice(&le32(1));
    let mut lp = vec![0u8; 24];
    lp[8..12].copy_from_slice(&le32(7));
    lp[12..16].copy_from_slice(&le32(7));
    body.extend_from_slice(&lp);
    f.extend_from_slice(b"smpl");
    f.extend_from_slice(&le32(body.len() as u32));
    f.extend_from_slice(&body);
    f.extend_from_slice(b"data");
    f.extend_from_slice(&le32(20));
    f.extend_from_slice(&[0; 20]);
    let mut store = Sampler::new();
    store
        .load_sample("a".to_string(), "l.wav".to_string(), ByteSource::Mem(f), None)
        .expect("load");
    assert!(store.get_sample("a", "l.wav").expect("present").loop_point.is_none());
}
