use organ_engine::bytes::ByteSource;
use organ_engine::wav::{decode_at, enc16, parse_wav, WavError};

/// Little-endian u32 bytes.
fn le32(v: u32) -> [u8; 4] {
    v.to_le_bytes()
}

/// Little-endian u16 bytes.
fn le16(v: u16) -> [u8; 2] {
    v.to_le_bytes()
}

/// A fmt chunk for PCM.
fn fmt_chunk(audio_format: u16, channels: u16, rate: u32, bits: u16) -> Vec<u8> {
    let mut c = Vec::new();
    c.extend_from_slice(b"fmt ");
    c.extend_from_slice(&le32(16));
    c.extend_from_slice(&le16(audio_format));
    c.extend_from_slice(&le16(channels));
    c.extend_from_slice(&le32(rate));
    c.extend_from_slice(&le32(rate * channels as u32 * (bits / 8) as u32)); // byte rate
    c.extend_from_slice(&le16(channels * (bits / 8))); // block align
    c.extend_from_slice(&le16(bits));
    c
}

/// An smpl chunk with a root note, fine tune and optional loop.
fn smpl_chunk(unity: u32, fraction: u32, loop_points: Option<(u32, u32)>) -> Vec<u8> {
    let mut body = vec![0u8; 36];
    body[12..16].copy_from_slice(&le32(unity));
    body[16..20].copy_from_slice(&le32(fraction));
    match loop_points {
        Some((start, end)) => {
            body[28..32].copy_from_slice(&le32(1));
            let mut lp = vec![0u8; 24];
            lp[8..12].copy_from_slice(&le32(start));
            lp[12..16].copy_from_slice(&le32(end));
            body.extend_from_slice(&lp);
        },
        None => {},
    }
    let mut c = Vec::new();
    c.extend_from_slice(b"smpl");
    c.extend_from_slice(&le32(body.len() as u32));
    c.extend_from_slice(&body);
    c
}

/// A whole WAV file from raw chunk contents and PCM data.
fn wav_file(chunks: Vec<Vec<u8>>, data: &[u8]) -> Vec<u8> {
    let mut f = Vec::new();
    f.extend_from_slice(b"RIFF");
    f.extend_from_slice(&le32(0));
    f.extend_from_slice(b"WAVE");
    for c in chunks {
        f.extend_from_slice(&c);
        if c.len() % 2 != 0 {
            f.push(0);
        }
    }
    f.extend_from_slice(b"data");
    f.extend_from_slice(&le32(data.len() as u32));
    f.extend_from_slice(data);
    f
}

/// A 16-bit mono WAV from sample values.
pub fn wav_16bit_mono(rate: u32, samples: &[i16]) -> Vec<u8> {
    let mut data = Vec::new();
    for s in samples {
        data.extend_from_slice(&s.to_le_bytes());
    }
    wav_file(vec![fmt_chunk(1, 1, rate, 16)], &data)
}

#[test]
fn parse_minimal_16bit() {
    let bytes = wav_16bit_mono(48000, &[0, 100, -100, 32767, -32768]);
    let meta = parse_wav(&ByteSource::Mem(bytes)).expect("parse");
    assert_eq!(meta.audio_format, 1);
    assert_eq!(meta.channels, 1);
    assert_eq!(meta.sample_rate, 48000);
    assert_eq!(meta.bits_per_sample, 16);
    assert!(meta.root_note.is_none());
    assert!(meta.fine_tune_mc.is_none());
    assert!(meta.loop_point.is_none());
    assert_eq!(meta.data_size, 10);
    // header 12 + fmt chunk (8 + 16) + data header 8
    assert_eq!(meta.data_start, 44);
}

#[test]
fn parse_rejects_bad_magic() {
    let mut bytes = wav_16bit_mono(48000, &[0]);
    bytes[0] = b'X';
    assert!(matches!(parse_wav(&ByteSource::Mem(bytes)), Err(WavError::NotRiff)));
    assert!(matches!(parse_wav(&ByteSource::Mem(vec![1, 2, 3])), Err(WavError::NotRiff)));
}

#[test]
fn parse_rejects_short_fmt() {
    let mut short_fmt = Vec::new();
    short_fmt.extend_from_slice(b"fmt ");
    short_fmt.extend_from_slice(&le32(8));
    short_fmt.extend_from_slice(&[0u8; 8]);
    let bytes = wav_file(vec![short_fmt], &[]);
    assert!(matches!(parse_wav(&ByteSource::Mem(bytes)), Err(WavError::Truncated)));
}

#[test]
fn parse_rejects_truncated_smpl() {
    let mut short_smpl = Vec::new();
    short_smpl.extend_from_slice(b"smpl");
    short_smpl.extend_from_slice(&le32(10));
    short_smpl.extend_from_slice(&[0u8; 10]);
    let bytes = wav_file(vec![fmt_chunk(1, 1, 48000, 16), short_smpl], &[]);
    assert!(matches!(parse_wav(&ByteSource::Mem(bytes)), Err(WavError::Truncated)));
}

#[test]
fn parse_smpl_metadata() {
    // +0.25 cents fraction word: 0.25 * 2^32.
    let fraction = 0x4000_0000u32;
    let bytes = wav_file(
        vec![fmt_chunk(1, 1, 44100, 16), smpl_chunk(60, fraction, Some((4000, 8000)))],
        &[0, 0],
    );
    let meta = parse_wav(&ByteSource::Mem(bytes)).expect("parse");
    assert_eq!(meta.root_note, Some(60));
    // 0.25 * 100 cents = 25 cents = 25_000 millicents.
    assert_eq!(meta.fine_tune_mc, Some(25_000));
    let lp = meta.loop_point.expect("loop");
    assert_eq!(lp.start, 4000);
    assert_eq!(lp.end, 8000);
}

#[test]
fn parse_smpl_negative_fine_tune() {
    // -1 as a fraction word is a hair below zero cents.
    let bytes = wav_file(vec![smpl_chunk(60, 0xFFFF_FFFFu32, None)], &[]);
    let meta = parse_wav(&ByteSource::Mem(bytes)).expect("parse");
    assert_eq!(meta.fine_tune_mc, Some(-1));
}

#[test]
fn parse_root_note_range() {
    let bytes = wav_file(vec![smpl_chunk(200, 0, None)], &[]);
    let meta = parse_wav(&ByteSource::Mem(bytes)).expect("parse");
    assert!(meta.root_note.is_none());
    let bytes0 = wav_file(vec![smpl_chunk(0, 0, None)], &[]);
    let meta0 = parse_wav(&ByteSource::Mem(bytes0)).expect("parse");
    assert!(meta0.root_note.is_none());
}

#[test]
fn parse_extensible_format() {
    let mut c = Vec::new();
    c.extend_from_slice(b"fmt ");
    c.extend_from_slice(&le32(40));
    c.extend_from_slice(&le16(0xFFFE));
    c.extend_from_slice(&le16(2));
    c.extend_from_slice(&le32(48000));
    c.extend_from_slice(&le32(48000 * 8));
    c.extend_from_slice(&le16(8));
    c.extend_from_slice(&le16(32));
    c.extend_from_slice(&le16(22)); // cbSize
    c.extend_from_slice(&le16(32)); // valid bits
    c.extend_from_slice(&le32(3)); // channel mask
    c.extend_from_slice(&le16(3)); // SubFormat leading u16: IEEE float
    c.extend_from_slice(&[0u8; 14]);
    let bytes = wav_file(vec![c], &[]);
    let meta = parse_wav(&ByteSource::Mem(bytes)).expect("parse");
    assert_eq!(meta.audio_format, 3);
    assert_eq!(meta.bits_per_sample, 32);
    assert_eq!(meta.channels, 2);
}

#[test]
fn decode_16bit_values() {
    let src = ByteSource::Mem(vec![0x00, 0x80, 0xFF, 0x7F, 0x00, 0x00]);
    // -32768 -> -32768 * 512 = -2^24
    assert_eq!(decode_at(&src, 0, 16, false), -(1 << 24));
    // 32767 -> 32767 * 512
    assert_eq!(decode_at(&src, 2, 16, false), 32767 * 512);
    assert_eq!(decode_at(&src, 4, 16, false), 0);
}

#[test]
fn decode_8bit_values() {
    let src = ByteSource::Mem(vec![0, 128, 255]);
    assert_eq!(decode_at(&src, 0, 8, false), -128 * 0x2_0000);
    assert_eq!(decode_at(&src, 1, 8, false), 0);
    assert_eq!(decode_at(&src, 2, 8, false), 127 * 0x2_0000);
}

#[test]
fn decode_24bit_values() {
    // 0x800000 is the most negative 24-bit value.
    let src = ByteSource::Mem(vec![0x00, 0x00, 0x80, 0xFF, 0xFF, 0x7F]);
    assert_eq!(decode_at(&src, 0, 24, false), -(1 << 23) * 2);
    assert_eq!(decode_at(&src, 3, 24, false), ((1 << 23) - 1) * 2);
}

#[test]
fn decode_32bit_int_values() {
    let src = ByteSource::Mem(
        [i32::MIN.to_le_bytes(), i32::MAX.to_le_bytes(), 0i32.to_le_bytes()].concat(),
    );
    assert_eq!(decode_at(&src, 0, 32, false), i32::MIN / 128);
    assert_eq!(decode_at(&src, 4, 32, false), i32::MAX / 128);
    assert_eq!(decode_at(&src, 8, 32, false), 0);
}

#[test]
fn decode_float_values() {
    let vals: [f32; 4] = [1.0, -1.0, 0.5, 0.0];
    let mut bytes = Vec::new();
    for v in vals {
        bytes.extend_from_slice(&v.to_le_bytes());
    }
    bytes.extend_from_slice(&f32::NAN.to_le_bytes());
    bytes.extend_from_slice(&f32::INFINITY.to_le_bytes());
    let src = ByteSource::Mem(bytes);
    assert_eq!(decode_at(&src, 0, 32, true), 1 << 24);
    assert_eq!(decode_at(&src, 4, 32, true), -(1 << 24));
    assert_eq!(decode_at(&src, 8, 32, true), 1 << 23);
    assert_eq!(decode_at(&src, 12, 32, true), 0);
    assert_eq!(decode_at(&src, 16, 32, true), 0);
    assert_eq!(decode_at(&src, 20, 32, true), i32::MAX);
}

#[test]
fn pcm16_round_trip_exact() {
    // Decoding 16-bit PCM and re-encoding by round(x * 32768)
    // reproduces the original bytes.
    let values: [i16; 7] = [0, 1, -1, 1000, -1000, i16::MAX, i16::MIN];
    let mut bytes = Vec::new();
    for v in values {
        bytes.extend_from_slice(&v.to_le_bytes());
    }
    let src = ByteSource::Mem(bytes.clone());
    for (k, v) in values.iter().enumerate() {
        let decoded = decode_at(&src, 2 * k, 16, false);
        let re = enc16(decoded);
        assert_eq!(re, *v);
        assert_eq!(re.to_le_bytes(), [bytes[2 * k], bytes[2 * k + 1]]);
    }
}

#[test]
fn unknown_chunks_are_skipped() {
    let mut junk = Vec::new();
    junk.extend_from_slice(b"LIST");
    junk.extend_from_slice(&le32(5));
    junk.extend_from_slice(&[1, 2, 3, 4, 5]);
    // odd size: one pad byte follows, accounted by wav_file
    let bytes = wav_file(vec![junk, fmt_chunk(1, 2, 22050, 8)], &[1, 2, 3, 4]);
    let meta = parse_wav(&ByteSource::Mem(bytes)).expect("parse");
    assert_eq!(meta.sample_rate, 22050);
    assert_eq!(meta.channels, 2);
    assert_eq!(meta.bits_per_sample, 8);
    assert_eq!(meta.data_size, 4);
}
